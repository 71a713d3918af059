use backpack::dropin::Config;
use backpack::dropin::File;
use backpack::dropin::OpenPolicy;
use backpack::dropin::Opened;
use backpack::pack::buffer::SeekFrom;
use backpack::BackPack;
use backpack::InMemoryFile;
use backpack::IoErrorKind;
use backpack::PackError;
use backpack::RawFile;

fn ready(o: Result<Opened, PackError>) -> File {
    match o {
        Ok(Opened::Ready(f)) => f,
        other => panic!("a file was expected, not {:?}", other),
    }
}

#[test]
fn config_defaults_to_disk_and_builds() {
    assert_eq!(Config::default().open_policy, OpenPolicy::OnDisk);
    assert_eq!(Config::thread_local().open_policy, OpenPolicy::ThreadLocalBackpack);
    let mut c = Config::default();
    assert_eq!(c.create_in_memory().open_policy, OpenPolicy::InMemory);
    assert_eq!(c.open_policy, OpenPolicy::InMemory);
    assert_eq!(c.create_thread_local().open_policy, OpenPolicy::ThreadLocalBackpack);
    assert_eq!(c.open_policy, OpenPolicy::ThreadLocalBackpack);
    assert_eq!(c.create_on_disk().open_policy, OpenPolicy::OnDisk);
    assert_eq!(c.open_policy, OpenPolicy::OnDisk);
    assert_eq!(c.create_in_memory().create_thread_local().open_policy, OpenPolicy::ThreadLocalBackpack);
}

#[test]
fn in_memory_scope_does_not_leak() {
    let mut scoped = Config::default();
    scoped.create_in_memory();
    let mut f = ready(File::create(&scoped, None, "x"));
    assert_eq!(f.write(None, b"hi"), Ok(2));
    assert_eq!(f.flush(), Ok(()));
    assert!(matches!(File::open(&Config::default(), None, "x"), Ok(Opened::OnDisk)));
    assert!(matches!(File::create(&Config::default(), None, "x"), Ok(Opened::OnDisk)));
    let g = ready(File::open(&scoped, None, "x"));
    assert!(matches!(g.into_raw(), RawFile::InMemory(InMemoryFile::Named { name, data }) if name == "x" && data.data.is_empty()));
}

#[test]
fn test_scoped() {
    let mut scoped = Config::default();
    scoped.create_in_memory();
    let mut f = ready(File::create(&scoped, None, "test.txt"));
    let line = b"yeet, this is not going to the filesystem!\n";
    assert_eq!(f.write(None, line), Ok(line.len()));
    assert_eq!(f.seek(None, SeekFrom::Start(0)), Ok(0));
    let mut out = vec![0u8; line.len()];
    assert_eq!(f.read(None, &mut out), Ok(line.len()));
    assert_eq!(&out, line);
    assert_eq!(f.sync_all(), Ok(()));
    assert_eq!(f.sync_data(), Ok(()));
    assert_eq!(f.metadata(), Err(PackError::Io(IoErrorKind::Unsupported)));
    assert_eq!(f.set_len(None, 4), Ok(()));
    assert!(matches!(f.into_raw(), RawFile::InMemory(InMemoryFile::Named { data, .. }) if data.data == b"yeet"));
}

#[test]
fn backpack_policy_goes_through_the_backpack() {
    let cfg = Config::thread_local();
    let mut bp = BackPack::create(RawFile::InMemory(InMemoryFile::unnamed())).unwrap();
    assert!(matches!(File::open(&cfg, Some(&bp), "x"), Err(PackError::FileNotFound(n)) if n == "x"));
    let mut f = ready(File::create(&cfg, Some(&mut bp), "x"));
    assert_eq!(f.write(Some(&mut bp), b"hi"), Ok(2));
    let mut g = ready(File::open(&cfg, Some(&bp), "x"));
    let mut out = [0u8; 4];
    assert_eq!(g.read(Some(&bp), &mut out), Ok(2));
    assert_eq!(&out[..2], b"hi");
    let mut twin = g.try_clone().unwrap();
    assert_eq!(twin.read(Some(&bp), &mut out), Ok(0));
    assert_eq!(twin.seek(Some(&bp), SeekFrom::Start(1)), Ok(1));
    assert_eq!(twin.read(Some(&bp), &mut out), Ok(1));
    assert_eq!(out[0], b'i');
    assert_eq!(g.set_len(Some(&mut bp), 0), Ok(()));
    assert_eq!(bp.memory_bytes(), 0);
    assert_eq!(f.read(None, &mut out), Err(PackError::Closed));
}

#[test]
fn backpack_policy_without_a_backpack_is_closed() {
    let cfg = Config::thread_local();
    assert!(matches!(File::create(&cfg, None, "x"), Err(PackError::Closed)));
    assert!(matches!(File::open(&cfg, None, "x"), Err(PackError::Closed)));
}

#[test]
fn backpack_policy_refuses_a_name_too_long() {
    let cfg = Config::thread_local();
    let mut bp = BackPack::create(RawFile::InMemory(InMemoryFile::unnamed())).unwrap();
    let long = "n".repeat(5000);
    assert!(matches!(File::create(&cfg, Some(&mut bp), &long), Err(PackError::Io(IoErrorKind::InvalidInput))));
}

#[test]
fn file_wraps_a_raw_stream() {
    let f = File::from_raw(RawFile::disk(Some("d".to_string()), vec![1, 2, 3]));
    assert_eq!(f.metadata().unwrap().len, 3);
    let twin = f.try_clone().unwrap();
    assert!(matches!(twin.into_raw(), RawFile::Disk { name: Some(n), file } if n == "d" && file.data == vec![1, 2, 3]));
}

#[test]
fn errors_map_to_io_kinds() {
    assert_eq!(PackError::Io(IoErrorKind::UnexpectedEof).io_kind(), IoErrorKind::UnexpectedEof);
    assert_eq!(PackError::Io(IoErrorKind::PermissionDenied).io_kind(), IoErrorKind::PermissionDenied);
    assert_eq!(PackError::BadMagic.io_kind(), IoErrorKind::InvalidData);
    assert_eq!(PackError::Utf8Error.io_kind(), IoErrorKind::InvalidData);
    assert_eq!(PackError::Incompatible(7).io_kind(), IoErrorKind::Unsupported);
    assert_eq!(PackError::Closed.io_kind(), IoErrorKind::Other);
    assert_eq!(PackError::FileNotFound("x".to_string()).io_kind(), IoErrorKind::NotFound);
    assert_eq!(PackError::NoName.io_kind(), IoErrorKind::Other);
    assert_eq!(PackError::InvalidEntry.io_kind(), IoErrorKind::Other);
}
