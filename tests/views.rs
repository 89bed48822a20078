use http_fm::db::DB;
use http_fm::errors::{DiskErrorKind, HFMError};
use http_fm::fs::{DirItem, DirectoryListing, FSItem};
use http_fm::views::{
    code_response, dir_context, locate, locate_at, resolve_code_fpath, share, share_dir,
    share_dir_at, CodeResponse, ResolvedShare,
};

fn store() -> DB {
    let mut db = DB::open_in_memory();
    assert!(db.insert_code_path("code", "/tmp/share", None).is_ok());
    db
}

#[test]
fn resolving_a_parent_escape_is_forbidden() {
    let mut db = store();
    assert_eq!(share_dir(&mut db, "code", "../../etc/passwd").err(), Some(HFMError::Forbidden));
    assert_eq!(db.get_code_path("code").unwrap().hits, 0);
}

#[test]
fn resolving_counts_a_hit() {
    let mut db = store();
    let resolved = share_dir(&mut db, "code", "docs/a.txt").unwrap();
    assert_eq!(resolved.root, "/tmp/share");
    assert_eq!(resolved.target, "/tmp/share/docs/a.txt");
    let resolved = share(&mut db, "code").unwrap();
    assert_eq!(resolved.target, "/tmp/share");
    assert_eq!(db.get_code_path("code").unwrap().hits, 2);
}

#[test]
fn resolving_unknown_or_expired_code_is_not_found() {
    let mut db = store();
    assert_eq!(share_dir(&mut db, "nope", "").err(), Some(HFMError::NotFound));
    assert!(db.insert_code_path("late", "/tmp/late", Some(50)).is_ok());
    assert_eq!(share_dir_at(&mut db, "late", "", 50).err(), Some(HFMError::NotFound));
    assert!(share_dir_at(&mut db, "late", "", 49).is_ok());
    assert_eq!(db.get_code_path_at("late", 0).unwrap().hits, 1);
}

#[test]
fn root_path_of_a_code() {
    let db = store();
    assert_eq!(resolve_code_fpath(&db, "code").as_deref(), Some("/tmp/share"));
    assert_eq!(resolve_code_fpath(&db, "other"), None);
}

#[test]
fn directory_context_carries_display_path() {
    let resolved = ResolvedShare { root: "/tmp/share".to_string(), target: "/tmp/share/b".to_string() };
    let ctx = dir_context("code", &resolved, DirectoryListing { items: vec![] });
    assert_eq!(ctx.dpath, "code/b");
    assert_eq!(ctx.code, "code");
    let at_root = ResolvedShare { root: "/tmp/share".to_string(), target: "/tmp/share".to_string() };
    assert_eq!(dir_context("code", &at_root, DirectoryListing { items: vec![] }).dpath, "code");
}

#[test]
fn response_follows_the_item() {
    let resolved = ResolvedShare { root: "/r".to_string(), target: "/r/f".to_string() };
    match code_response("c", &resolved, FSItem::File { path: "/r/f".to_string(), size_bytes: 0 }) {
        CodeResponse::Blob { path, size_bytes } => {
            assert_eq!(path, "/r/f");
            assert_eq!(size_bytes, 0);
        }
        CodeResponse::Directory(_) => panic!("expected a blob"),
    }
    let listing = http_fm::fs::ls("/r", &vec![DirItem::File { path: "/r/f/x".to_string(), size_bytes: 1 }]).unwrap();
    let dir = ResolvedShare { root: "/r".to_string(), target: "/r/f".to_string() };
    match code_response("c", &dir, FSItem::Directory(listing)) {
        CodeResponse::Directory(ctx) => {
            assert_eq!(ctx.dpath, "c/f");
            assert_eq!(ctx.items.len(), 1);
            assert_eq!(ctx.items[0].path, "f/x");
        }
        CodeResponse::Blob { .. } => panic!("expected a directory"),
    }
}

#[test]
fn error_messages_and_statuses() {
    assert_eq!(HFMError::NotFound.get_message_status(), ("Not found", 404));
    assert_eq!(HFMError::Forbidden.get_message_status(), ("Forbidden", 403));
    assert_eq!(
        HFMError::DiskError { kind: DiskErrorKind::NotFound }.get_message_status(),
        ("File not found", 404)
    );
    assert_eq!(
        HFMError::DiskError { kind: DiskErrorKind::Other }.get_message_status(),
        ("Disk error", 500)
    );
    assert_eq!(HFMError::UnknownFileType.get_message_status(), ("Unknown file type", 500));
    assert_eq!(HFMError::DuplicateCode.get_message_status().1, 500);
}

#[test]
fn locating_counts_no_hit() {
    let db = store();
    let found = locate(&db, "code", "a/./b").unwrap();
    assert_eq!(found.target, "/tmp/share/a/b");
    assert_eq!(locate(&db, "code", "../x").err(), Some(HFMError::Forbidden));
    assert_eq!(locate_at(&db, "none", "", 0).err(), Some(HFMError::NotFound));
    assert_eq!(db.get_code_path("code").unwrap().hits, 0);
}
