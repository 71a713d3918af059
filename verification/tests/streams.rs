use backpack::pack::buffer::offset_by;
use backpack::pack::buffer::InMemoryBuf;
use backpack::pack::buffer::SeekFrom;
use backpack::pack::file::Metadata;
use backpack::pack::slice::PackSlice;
use backpack::BackPack;
use backpack::InMemoryFile;
use backpack::IoErrorKind;
use backpack::PackError;
use backpack::RawFile;

fn pack_with(name: &str, body: &[u8]) -> (BackPack, InMemoryFile) {
    let mut bp = BackPack::create(RawFile::in_memory("pack.bp")).unwrap();
    let f = RawFile::InMemory(InMemoryFile::from_bytes(body.to_vec()).with_name(name));
    let h = bp.add_file(f).unwrap();
    (bp, h)
}

#[test]
fn buffer_reads_until_the_end_and_then_nothing() {
    let mut b = InMemoryBuf::new(b"hello".to_vec());
    let mut out = [0xEEu8; 3];
    assert_eq!(b.read(&mut out), 3);
    assert_eq!(&out, b"hel");
    assert_eq!(b.position(), 3);
    let mut out = [0xEEu8; 3];
    assert_eq!(b.read(&mut out), 2);
    assert_eq!(&out, &[b'l', b'o', 0xEE]);
    assert_eq!(b.read(&mut out), 0);
    assert_eq!(&out, &[b'l', b'o', 0xEE]);
    b.set_position(99);
    assert_eq!(b.read(&mut out), 0);
    assert_eq!(b.position(), 99);
    let mut none: [u8; 0] = [];
    b.set_position(0);
    assert_eq!(b.read(&mut none), 0);
}

#[test]
fn buffer_read_exact_and_read_to_end() {
    let mut b = InMemoryBuf::new(b"hello".to_vec());
    assert_eq!(b.read_exact(2), Ok(b"he".to_vec()));
    assert_eq!(b.read_exact(0), Ok(vec![]));
    assert_eq!(b.read_exact(4), Err(PackError::Io(IoErrorKind::UnexpectedEof)));
    assert_eq!(b.position(), 5);
    b.set_position(1);
    assert_eq!(b.read_to_end(), b"ello".to_vec());
    assert_eq!(b.position(), 5);
    assert_eq!(b.read_to_end(), Vec::<u8>::new());
    b.set_position(77);
    assert_eq!(b.read_exact(0), Ok(vec![]));
    assert_eq!(b.read_exact(1), Err(PackError::Io(IoErrorKind::UnexpectedEof)));
    assert_eq!(b.position(), 77);
}

#[test]
fn buffer_write_overwrites_extends_and_fills_gaps() {
    let mut b = InMemoryBuf::new(b"hello".to_vec());
    b.set_position(3);
    assert_eq!(b.write(b"p"), Ok(1));
    assert_eq!(b.data, b"helpo");
    assert_eq!(b.write(b"!!!"), Ok(3));
    assert_eq!(b.data, b"help!!!");
    assert_eq!(b.position(), 7);
    b.set_position(9);
    assert_eq!(b.write(b"x"), Ok(1));
    assert_eq!(b.data, b"help!!!\0\0x");
    b.set_position(12);
    assert_eq!(b.write(b""), Ok(0));
    assert_eq!(b.data, b"help!!!\0\0x\0\0");
    assert_eq!(b.position(), 12);
}

#[test]
fn buffer_write_beyond_the_largest_length_is_refused() {
    let mut b = InMemoryBuf::new(b"abc".to_vec());
    b.set_position(u64::MAX);
    assert_eq!(b.write(b"x"), Err(PackError::Io(IoErrorKind::InvalidInput)));
    assert_eq!(b.data, b"abc");
    assert_eq!(b.position(), u64::MAX);
}

#[test]
fn buffer_seek_is_signed_and_clamped_at_zero() {
    let mut b = InMemoryBuf::new(b"hello".to_vec());
    assert_eq!(b.seek(SeekFrom::Start(4)), Ok(4));
    assert_eq!(b.seek(SeekFrom::Current(-1)), Ok(3));
    assert_eq!(b.seek(SeekFrom::Current(-10)), Ok(0));
    assert_eq!(b.seek(SeekFrom::End(-2)), Ok(3));
    assert_eq!(b.seek(SeekFrom::End(-6)), Ok(0));
    assert_eq!(b.seek(SeekFrom::End(10)), Ok(15));
    assert_eq!(b.position(), 15);
    assert_eq!(b.seek(SeekFrom::Start(u64::MAX)), Ok(u64::MAX));
    assert_eq!(b.seek(SeekFrom::Current(1)), Err(PackError::Io(IoErrorKind::InvalidInput)));
    assert_eq!(b.position(), u64::MAX);
    assert_eq!(b.seek(SeekFrom::Current(i64::MIN)), Ok(u64::MAX - (1 << 63)));
}

#[test]
fn offset_by_exact_values() {
    assert_eq!(offset_by(10, 5), Some(15));
    assert_eq!(offset_by(10, -5), Some(5));
    assert_eq!(offset_by(10, -10), Some(0));
    assert_eq!(offset_by(10, -11), Some(0));
    assert_eq!(offset_by(0, i64::MIN), Some(0));
    assert_eq!(offset_by(u64::MAX, 0), Some(u64::MAX));
    assert_eq!(offset_by(u64::MAX, 1), None);
    assert_eq!(offset_by(u64::MAX - 5, 5), Some(u64::MAX));
    assert_eq!(offset_by(1 << 63, i64::MIN), Some(0));
}

#[test]
fn buffer_set_len_cuts_and_extends_with_zeros() {
    let mut b = InMemoryBuf::new(b"hello".to_vec());
    b.set_position(4);
    assert_eq!(b.set_len(2), Ok(()));
    assert_eq!(b.data, b"he");
    assert_eq!(b.position(), 4);
    assert_eq!(b.set_len(4), Ok(()));
    assert_eq!(b.data, b"he\0\0");
    assert_eq!(b.set_len(4), Ok(()));
    assert_eq!(b.data, b"he\0\0");
}

#[test]
fn slice_reads_through_the_backpack() {
    let (bp, h) = pack_with("a", b"0123456789");
    let mut s = match h {
        InMemoryFile::Packed { data, .. } => data,
        _ => panic!("a handle was expected"),
    };
    assert_eq!(s.identifier(), (0, 10));
    let mut out = [0u8; 4];
    assert_eq!(s.read(&bp, &mut out), Ok(4));
    assert_eq!(&out, b"0123");
    assert_eq!(s.position(), 4);
    let mut twin = s;
    assert_eq!(twin.read(&bp, &mut out), Ok(4));
    assert_eq!(&out, b"4567");
    assert_eq!(s.position(), 4);
    assert_eq!(s.seek(&bp, SeekFrom::End(-1)), Ok(9));
    assert_eq!(s.read(&bp, &mut out), Ok(1));
    assert_eq!(&out, b"9567");
    assert_eq!(s.flush(), Ok(()));
}

#[test]
fn slice_writes_through_and_the_byte_count_follows() {
    let (mut bp, h) = pack_with("a", b"0123456789");
    let mut s = match h {
        InMemoryFile::Packed { data, .. } => data,
        _ => panic!("a handle was expected"),
    };
    s.seek(&bp, SeekFrom::Start(8)).unwrap();
    assert_eq!(s.write(&mut bp, b"abcd"), Ok(4));
    assert_eq!(s.get_bytes(&bp).unwrap(), b"01234567abcd");
    assert_eq!(s.identifier(), (0, 10));
    assert_eq!(bp.memory_bytes(), 12);
    assert_eq!(s.resize(&mut bp, 3), Ok(()));
    assert_eq!(s.get_bytes(&bp).unwrap(), b"012");
    assert_eq!(bp.memory_bytes(), 3);
    assert_eq!(s.position(), 12);
    assert_eq!(s.resize(&mut bp, 5), Ok(()));
    assert_eq!(s.get_bytes(&bp).unwrap(), b"012\0\0");
    assert_eq!(bp.memory_bytes(), 5);
    assert_eq!(bp.retrieve_slice(&s), Some(b"012\0\0".to_vec()));
    assert_eq!(bp.store_slice(&s, b"zz".to_vec()), Ok(()));
    assert_eq!(bp.retrieve_slice(&s), Some(b"zz".to_vec()));
    assert_eq!(bp.memory_bytes(), 2);
}

#[test]
fn slice_without_its_buffer_is_an_invalid_entry() {
    let (mut bp, _) = pack_with("a", b"0123456789");
    let mut s = PackSlice::new(1, 1);
    let mut out = [0u8; 4];
    assert_eq!(s.read(&bp, &mut out), Err(PackError::InvalidEntry));
    assert_eq!(s.write(&mut bp, b"x"), Err(PackError::InvalidEntry));
    assert_eq!(s.seek(&bp, SeekFrom::Start(1)), Err(PackError::InvalidEntry));
    assert_eq!(s.resize(&mut bp, 1), Err(PackError::InvalidEntry));
    assert_eq!(bp.store_slice(&s, vec![1]), Err(PackError::InvalidEntry));
    assert_eq!(bp.retrieve_slice(&s), None);
    assert_eq!(bp.memory_bytes(), 10);
    assert_eq!(s.position(), 0);
}

#[test]
fn slice_write_beyond_the_largest_length_is_refused() {
    let (mut bp, h) = pack_with("a", b"0123456789");
    let mut s = match h {
        InMemoryFile::Packed { data, .. } => data,
        _ => panic!("a handle was expected"),
    };
    s.seek(&bp, SeekFrom::Start(u64::MAX)).unwrap();
    assert_eq!(s.write(&mut bp, b"x"), Err(PackError::Io(IoErrorKind::InvalidInput)));
    assert_eq!(s.get_bytes(&bp).unwrap(), b"0123456789");
}

#[test]
fn file_in_memory_names_and_kinds() {
    let f = InMemoryFile::new("n");
    assert_eq!(f.name().map(|s| s.as_str()), Some("n"));
    assert_eq!(f.current_offset(), 0);
    assert_eq!(f.get_bytes(None).unwrap(), b"");
    let u = InMemoryFile::unnamed();
    assert!(u.name().is_none());
    let u = u.with_name("now");
    assert!(matches!(&u, InMemoryFile::Named { name, .. } if name == "now"));
    let u = u.with_name("then");
    assert!(matches!(&u, InMemoryFile::Named { name, .. } if name == "then"));
    let t = InMemoryFile::from_text("héllo");
    assert_eq!(t.get_bytes(None).unwrap(), "héllo".as_bytes());
    let v: InMemoryFile = vec![1u8, 2, 3].into();
    assert!(matches!(&v, InMemoryFile::Unnamed { data } if data.data == vec![1, 2, 3] && data.pos == 0));
}

#[test]
fn file_in_memory_streams_over_its_own_bytes() {
    let mut f = InMemoryFile::new("n");
    assert_eq!(f.write(None, b"hello"), Ok(5));
    assert_eq!(f.current_offset(), 5);
    assert_eq!(f.seek(None, SeekFrom::Start(1)), Ok(1));
    let mut out = [0u8; 3];
    assert_eq!(f.read(None, &mut out), Ok(3));
    assert_eq!(&out, b"ell");
    assert_eq!(f.set_len(None, 2), Ok(()));
    assert_eq!(f.get_bytes(None).unwrap(), b"he");
    assert_eq!(f.current_offset(), 4);
    assert_eq!(f.flush(), Ok(()));
    let mut bp = BackPack::create(RawFile::in_memory("pack.bp")).unwrap();
    assert_eq!(f.write(Some(&mut bp), b"!"), Ok(1));
    assert_eq!(f.get_bytes(Some(&bp)).unwrap(), b"he\0\0!");
    assert_eq!(bp.memory_bytes(), 0);
}

#[test]
fn handle_streams_through_the_backpack_it_is_given() {
    let (mut bp, mut h) = pack_with("a", b"0123");
    let mut out = [0u8; 2];
    assert_eq!(h.read(Some(&bp), &mut out), Ok(2));
    assert_eq!(&out, b"01");
    assert_eq!(h.write(Some(&mut bp), b"xyz"), Ok(3));
    assert_eq!(h.get_bytes(Some(&bp)).unwrap(), b"01xyz");
    assert_eq!(h.current_offset(), 5);
    assert_eq!(h.seek(Some(&bp), SeekFrom::End(-5)), Ok(0));
    assert_eq!(h.set_len(Some(&mut bp), 1), Ok(()));
    assert_eq!(h.get_bytes(Some(&bp)).unwrap(), b"0");
    assert_eq!(bp.memory_bytes(), 1);
    let twin = h.try_clone().unwrap();
    assert!(matches!((&twin, &h), (InMemoryFile::Packed { name: a, data: s }, InMemoryFile::Packed { name: b, data: t }) if a == b && s == t));
}

#[test]
fn handle_without_a_backpack_is_closed() {
    let (_, mut h) = pack_with("a", b"0123");
    let mut out = [0u8; 2];
    assert_eq!(h.read(None, &mut out), Err(PackError::Closed));
    assert_eq!(h.write(None, b"x"), Err(PackError::Closed));
    assert_eq!(h.seek(None, SeekFrom::Start(0)), Err(PackError::Closed));
    assert_eq!(h.set_len(None, 0), Err(PackError::Closed));
    assert_eq!(h.get_bytes(None), Err(PackError::Closed));
    let mut other = BackPack::create(RawFile::in_memory("other.bp")).unwrap();
    assert_eq!(h.get_bytes(Some(&other)), Err(PackError::InvalidEntry));
    assert_eq!(h.write(Some(&mut other), b"x"), Err(PackError::InvalidEntry));
}

#[test]
fn raw_file_routes_by_kind() {
    let mut m = RawFile::in_memory("m");
    let mut d = RawFile::disk(None, b"disk".to_vec());
    assert_eq!(m.name().map(|s| s.as_str()), Some("m"));
    assert!(d.name().is_none());
    assert_eq!(m.write(None, b"mem"), Ok(3));
    assert_eq!(m.current_offset(), Ok(3));
    assert_eq!(d.seek(None, SeekFrom::End(0)), Ok(4));
    assert_eq!(d.write(None, b"!"), Ok(1));
    assert_eq!(d.seek(None, SeekFrom::Start(0)), Ok(0));
    let mut out = [0u8; 8];
    assert_eq!(d.read(None, &mut out), Ok(5));
    assert_eq!(&out[..5], b"disk!");
    assert_eq!(d.set_len(None, 2), Ok(()));
    assert_eq!(d.metadata(), Ok(Metadata { len: 2 }));
    assert_eq!(m.metadata(), Err(PackError::Io(IoErrorKind::Unsupported)));
    assert_eq!(m.sync_all(), Ok(()));
    assert_eq!(m.sync_data(), Ok(()));
    assert_eq!(d.sync_all(), Ok(()));
    assert_eq!(d.sync_data(), Ok(()));
    assert_eq!(m.flush(), Ok(()));
    let d = d.with_name("named");
    assert_eq!(d.name().map(|s| s.as_str()), Some("named"));
    let twin = d.try_clone().unwrap();
    assert!(matches!(&twin, RawFile::Disk { name: Some(n), file } if n == "named" && file.data == b"di" && file.pos == 5));
    let m = m.with_name("other");
    assert_eq!(m.name().map(|s| s.as_str()), Some("other"));
}

#[test]
fn raw_file_into_memory() {
    let m = RawFile::in_memory("m");
    assert!(matches!(m.into_memory(), Ok(InMemoryFile::Named { name, .. }) if name == "m"));
    let d = RawFile::disk(Some("d".to_string()), b"disk".to_vec());
    let d = match d.into_memory() {
        Ok(_) => panic!("a file of the host was expected back"),
        Err(d) => d,
    };
    let mut d = d;
    d.seek(None, SeekFrom::Start(1)).unwrap();
    match d.convert_into_memory() {
        Ok(InMemoryFile::Named { name, data }) => {
            assert_eq!(name, "d");
            assert_eq!(data.data, b"isk");
            assert_eq!(data.pos, 0);
        }
        _ => panic!("a named file was expected"),
    }
    let d = RawFile::disk(None, b"disk".to_vec());
    assert!(matches!(d.convert_into_memory(), Ok(InMemoryFile::Unnamed { data }) if data.data == b"disk"));
    let m = RawFile::in_memory("m");
    assert!(matches!(m.convert_into_memory(), Ok(InMemoryFile::Named { name, .. }) if name == "m"));
    let r: RawFile = InMemoryFile::new("x").into();
    assert!(matches!(r, RawFile::InMemory(InMemoryFile::Named { .. })));
}
