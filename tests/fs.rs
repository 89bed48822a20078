use http_fm::errors::{DiskErrorKind, HFMError};
use http_fm::fs::{get, ls, DirItem, FSItem, FileKind, FileStream, TargetStat};

fn file(path: &str) -> DirItem {
    DirItem::File { path: path.to_string(), size_bytes: 3 }
}

fn dir(path: &str) -> DirItem {
    DirItem::Directory { path: path.to_string() }
}

#[test]
fn listing_filters_hidden_and_sorts() {
    let entries = vec![file("/tmp/share/a.txt"), file("/tmp/share/.hidden"), dir("/tmp/share/b")];
    let listing = ls("/tmp/share", &entries).unwrap();
    let names: Vec<&str> = listing.items.iter().map(|i| i.name.as_str()).collect();
    assert_eq!(names, vec!["a.txt", "b"]);
    assert!(!listing.items[0].is_dir);
    assert!(listing.items[1].is_dir);
    assert_eq!(listing.items[1].path, "b");
}

#[test]
fn listing_sorts_by_bytes_not_kind() {
    let entries = vec![
        dir("/r/sub/zeta"),
        file("/r/sub/Alpha"),
        file("/r/sub/beta"),
        dir("/r/sub/a"),
        file("/r/sub/é"),
    ];
    let listing = ls("/r", &entries).unwrap();
    let paths: Vec<&str> = listing.items.iter().map(|i| i.path.as_str()).collect();
    assert_eq!(paths, vec!["sub/Alpha", "sub/a", "sub/beta", "sub/zeta", "sub/é"]);
    assert_eq!(listing.items[1].name, "a");
}

#[test]
fn listing_of_empty_directory_is_empty() {
    assert!(ls("/r", &vec![]).unwrap().items.is_empty());
}

#[test]
fn listing_fails_on_a_child_outside_the_root() {
    let entries = vec![file("/r/a"), file("/elsewhere/b")];
    assert_eq!(ls("/r", &entries).err(), Some(HFMError::Forbidden));
}

#[test]
fn classify_children() {
    let f = DirItem::from_entry(Some("/r/f".to_string()), FileKind::File, 12).unwrap();
    assert!(matches!(f, DirItem::File { ref path, size_bytes: 12 } if path == "/r/f"));
    let d = DirItem::from_entry(Some("/r/d".to_string()), FileKind::Directory, 0).unwrap();
    assert!(d.is_dir());
    assert_eq!(d.path(), "/r/d");
    assert_eq!(
        DirItem::from_entry(Some("/r/s".to_string()), FileKind::Other, 0).err(),
        Some(HFMError::UnknownFileType)
    );
    assert_eq!(DirItem::from_entry(None, FileKind::File, 0).err(), Some(HFMError::UnicodeError));
}

#[test]
fn get_classifies_targets() {
    let none: Vec<DirItem> = vec![];
    assert_eq!(get("/r", "/r/x", TargetStat::Missing, &none).err(), Some(HFMError::NotFound));
    assert_eq!(
        get("/r", "/r/x", TargetStat::Unreadable, &none).err(),
        Some(HFMError::DiskError { kind: DiskErrorKind::Other })
    );
    assert_eq!(get("/r", "/r/x", TargetStat::Other, &none).err(), Some(HFMError::UnknownFileType));
    match get("/r", "/r/x", TargetStat::File { size_bytes: 42 }, &none).unwrap() {
        FSItem::File { path, size_bytes } => {
            assert_eq!(path, "/r/x");
            assert_eq!(size_bytes, 42);
        }
        FSItem::Directory(_) => panic!("expected a file"),
    }
    match get("/r", "/r", TargetStat::Directory, &vec![file("/r/.a"), file("/r/b")]).unwrap() {
        FSItem::Directory(l) => {
            assert_eq!(l.items.len(), 1);
            assert_eq!(l.items[0].name, "b");
        }
        FSItem::File { .. } => panic!("expected a directory"),
    }
}

#[test]
fn zero_byte_file_streams_nothing() {
    let mut stream = FileStream::new(0);
    assert_eq!(stream.length(), 0);
    assert_eq!(stream.remaining(), 0);
    assert_eq!(stream.next_chunk(4096), None);
}

#[test]
fn stream_chunks_cover_file_once() {
    let mut stream = FileStream::new(10);
    assert_eq!(stream.next_chunk(4), Some((0, 4)));
    assert_eq!(stream.next_chunk(4), Some((4, 4)));
    assert_eq!(stream.remaining(), 2);
    assert_eq!(stream.next_chunk(4), Some((8, 2)));
    assert_eq!(stream.next_chunk(4), None);
    assert_eq!(stream.next_chunk(4), None);
    assert_eq!(stream.length(), 10);
}
