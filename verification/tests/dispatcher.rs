use remote_fs::fs::{ReadOutcome, RemoteFS};
use remote_fs::types::{CacheConfig, Errno, RemoteEntry};

fn small_config() -> CacheConfig {
    CacheConfig { dir_ttl: 5, file_ttl: 10, max_file_cache_bytes: 1024 }
}

fn entry(name: &str, is_dir: bool, size: u64) -> RemoteEntry {
    RemoteEntry { name: name.to_string(), is_dir, size }
}

#[test]
fn readdir_lists_root() {
    let mut fs = RemoteFS::new(small_config());
    let listing = vec![entry("a", true, 0), entry("b.txt", false, 3)];
    let r = fs.readdir(1, 0, Some(&listing));
    assert_eq!(r.len(), 4);
    assert_eq!(r[0].name, ".");
    assert_eq!(r[0].ino, 1);
    assert_eq!(r[0].offset, 1);
    assert!(r[0].is_dir);
    assert_eq!(r[1].name, "..");
    assert_eq!(r[1].offset, 2);
    assert_eq!(r[2].name, "a");
    assert!(r[2].is_dir);
    assert_eq!(r[2].offset, 3);
    assert_eq!(r[3].name, "b.txt");
    assert!(!r[3].is_dir);
    assert_eq!(r[3].offset, 4);
    assert!(r[2].ino >= 2);
    assert!(r[3].ino >= 2);
    assert_ne!(r[2].ino, r[3].ino);
}

#[test]
fn readdir_second_page_is_empty() {
    let mut fs = RemoteFS::new(small_config());
    let listing = vec![entry("a", true, 0)];
    let r = fs.readdir(1, 3, Some(&listing));
    assert!(r.is_empty());
}

#[test]
fn readdir_failed_listing_gives_dots_only() {
    let mut fs = RemoteFS::new(small_config());
    let r = fs.readdir(1, 0, None);
    assert_eq!(r.len(), 2);
    assert_eq!(r[0].name, ".");
    assert_eq!(r[1].name, "..");
}

#[test]
fn lookup_found_allocates_inode() {
    let mut fs = RemoteFS::new(small_config());
    let listing = vec![entry("b.txt", false, 3)];
    let attr = fs.lookup(1, "b.txt", Some(&listing)).unwrap();
    assert_eq!(attr.ino, 2);
    assert_eq!(attr.size, 3);
    assert!(!attr.is_dir);
    assert_eq!(attr.perm, 0o644);
    // Looking the same name up again returns the same inode.
    let attr2 = fs.lookup(1, "b.txt", Some(&listing)).unwrap();
    assert_eq!(attr2.ino, 2);
}

#[test]
fn lookup_missing_name_is_not_found() {
    let mut fs = RemoteFS::new(small_config());
    let listing = vec![entry("a", true, 0)];
    assert_eq!(fs.lookup(1, "missing", Some(&listing)), Err(Errno::NotFound));
    assert_eq!(fs.lookup(1, "missing", None), Err(Errno::NotFound));
}

#[test]
fn getattr_root_is_a_directory() {
    let fs = RemoteFS::new(small_config());
    let attr = fs.getattr(1, None).unwrap();
    assert_eq!(attr.ino, 1);
    assert_eq!(attr.size, 0);
    assert!(attr.is_dir);
    assert_eq!(attr.perm, 0o755);
    assert_eq!(attr.nlink, 2);
}

#[test]
fn getattr_finds_filename_in_parent_listing() {
    let mut fs = RemoteFS::new(small_config());
    let listing = vec![entry("b.txt", false, 3)];
    let ino = fs.lookup(1, "b.txt", Some(&listing)).unwrap().ino;
    let attr = fs.getattr(ino, Some(&listing)).unwrap();
    assert_eq!(attr.ino, ino);
    assert_eq!(attr.size, 3);
    assert!(!attr.is_dir);
}

#[test]
fn getattr_unknown_inode_is_not_found() {
    let fs = RemoteFS::new(small_config());
    assert_eq!(fs.getattr(42, None), Err(Errno::NotFound));
}

#[test]
fn read_small_file_from_cache() {
    let mut fs = RemoteFS::new(small_config());
    let ino = fs.alloc_inode("b.txt".to_string());
    fs.store_file_data("b.txt", &b"hi\n".to_vec(), 0);
    // A read-only open creates no write buffer.
    let fh = fs.open(ino, false, false, None);
    match fs.read_step(ino, fh, 0, 4096, 0) {
        ReadOutcome::Cached(v) => assert_eq!(v, b"hi\n".to_vec()),
        other => panic!("expected a cached read, got {:?}", kind_of(&other)),
    }
}

#[test]
fn read_stale_cache_needs_a_range_request() {
    let mut fs = RemoteFS::new(small_config());
    let ino = fs.alloc_inode("b.txt".to_string());
    fs.store_file_data("b.txt", &b"hi\n".to_vec(), 0);
    // file_ttl is 10: at 10 the entry has aged out.
    match fs.read_step(ino, 99, 0, 4096, 10) {
        ReadOutcome::NeedRange(p) => assert_eq!(p, "b.txt"),
        other => panic!("expected a range request, got {:?}", kind_of(&other)),
    }
}

#[test]
fn read_unknown_inode_without_buffer_fails() {
    let fs = RemoteFS::new(small_config());
    match fs.read_step(42, 7, 0, 4096, 0) {
        ReadOutcome::Unknown => {},
        other => panic!("expected unknown, got {:?}", kind_of(&other)),
    }
}

#[test]
fn read_prefers_write_buffer_over_cache() {
    let mut fs = RemoteFS::new(small_config());
    let ino = fs.alloc_inode("f".to_string());
    fs.store_file_data("f", &b"server".to_vec(), 0);
    let fh = fs.open(ino, true, false, Some(b"local".to_vec()));
    match fs.read_step(ino, fh, 0, 4096, 0) {
        ReadOutcome::Buffered(v) => assert_eq!(v, b"local".to_vec()),
        other => panic!("expected the buffer, got {:?}", kind_of(&other)),
    }
}

#[test]
fn create_write_flush_round_trip() {
    let mut fs = RemoteFS::new(small_config());
    let (attr, fh) = fs.create(1, "c.txt", true).unwrap();
    assert_eq!(attr.size, 0);
    assert!(!attr.is_dir);
    assert_eq!(attr.ino, 2);
    // A fresh create is clean: nothing to flush yet.
    assert!(fs.flush_payload(fh).is_none());
    assert_eq!(fs.write(fh, 0, &b"hello".to_vec()), Ok(5));
    assert_eq!(fs.write(fh, 5, &b" world".to_vec()), Ok(6));
    let (path, data) = fs.flush_payload(fh).unwrap();
    assert_eq!(path, "c.txt");
    assert_eq!(data, b"hello world".to_vec());
    fs.flush_commit(fh);
    // The upload cleared the dirty flag: the next flush is a no-op.
    assert!(fs.flush_payload(fh).is_none());
    // The buffer still answers reads until release.
    match fs.read_step(attr.ino, fh, 0, 4096, 0) {
        ReadOutcome::Buffered(v) => assert_eq!(v, b"hello world".to_vec()),
        other => panic!("expected the buffer, got {:?}", kind_of(&other)),
    }
}

#[test]
fn create_failed_upload_is_io_error() {
    let mut fs = RemoteFS::new(small_config());
    assert_eq!(fs.create(1, "c.txt", false), Err(Errno::Io));
}

#[test]
fn write_without_buffer_is_bad_handle() {
    let mut fs = RemoteFS::new(small_config());
    assert_eq!(fs.write(9, 0, &b"x".to_vec()), Err(Errno::BadHandle));
}

#[test]
fn write_past_end_zero_fills_the_gap() {
    let mut fs = RemoteFS::new(small_config());
    let (_, fh) = fs.create(1, "gap", true).unwrap();
    assert_eq!(fs.write(fh, 3, &b"ab".to_vec()), Ok(2));
    let (_, data) = fs.flush_payload(fh).unwrap();
    assert_eq!(data, vec![0u8, 0, 0, b'a', b'b']);
}

#[test]
fn release_discards_the_buffer() {
    let mut fs = RemoteFS::new(small_config());
    let (attr, fh) = fs.create(1, "c.txt", true).unwrap();
    fs.write(fh, 0, &b"pending".to_vec()).unwrap();
    fs.release(fh);
    // The handle is gone: no flush source, no buffered reads, no writes.
    assert!(fs.flush_payload(fh).is_none());
    assert_eq!(fs.write(fh, 0, &b"x".to_vec()), Err(Errno::BadHandle));
    match fs.read_step(attr.ino, fh, 0, 4096, 0) {
        ReadOutcome::Buffered(_) => panic!("buffer should be gone"),
        _ => {},
    }
}

#[test]
fn open_for_writing_prefills_unless_truncating() {
    let mut fs = RemoteFS::new(small_config());
    let ino = fs.alloc_inode("f".to_string());
    let fh = fs.open(ino, true, false, Some(b"remote".to_vec()));
    let _ = fs.write(fh, 6, &b"!".to_vec());
    let (_, data) = fs.flush_payload(fh).unwrap();
    assert_eq!(data, b"remote!".to_vec());
    // With truncation the buffer starts empty even when bytes were offered.
    let fh2 = fs.open(ino, true, true, Some(b"remote".to_vec()));
    let _ = fs.write(fh2, 0, &b"x".to_vec());
    let (_, data2) = fs.flush_payload(fh2).unwrap();
    assert_eq!(data2, b"x".to_vec());
}

#[test]
fn open_read_only_creates_no_buffer() {
    let mut fs = RemoteFS::new(small_config());
    let ino = fs.alloc_inode("f".to_string());
    let fh = fs.open(ino, false, false, None);
    assert!(fs.flush_payload(fh).is_none());
    assert_eq!(fs.write(fh, 0, &b"x".to_vec()), Err(Errno::BadHandle));
}

#[test]
fn mkdir_binds_a_directory_inode() {
    let mut fs = RemoteFS::new(small_config());
    let attr = fs.mkdir(1, "d", true).unwrap();
    assert!(attr.is_dir);
    assert_eq!(attr.perm, 0o755);
    assert_eq!(attr.ino, 2);
    assert_eq!(fs.inode_path(attr.ino), Some("d".to_string()));
    assert_eq!(fs.mkdir(1, "e", false), Err(Errno::Io));
}

#[test]
fn unlink_removes_the_binding() {
    let mut fs = RemoteFS::new(small_config());
    let listing = vec![entry("b.txt", false, 3)];
    let ino = fs.lookup(1, "b.txt", Some(&listing)).unwrap().ino;
    assert_eq!(fs.unlink(1, "b.txt", true), Ok(()));
    assert_eq!(fs.inode_path(ino), None);
    // A later lookup against the post-delete listing fails.
    assert_eq!(fs.lookup(1, "b.txt", Some(&vec![])), Err(Errno::NotFound));
    // The path, seen again, gets a fresh inode: numbers are not recycled.
    let again = fs.lookup(1, "b.txt", Some(&listing)).unwrap().ino;
    assert_ne!(again, ino);
}

#[test]
fn unlink_failed_delete_changes_nothing() {
    let mut fs = RemoteFS::new(small_config());
    let ino = fs.alloc_inode("b.txt".to_string());
    assert_eq!(fs.unlink(1, "b.txt", false), Err(Errno::Io));
    assert_eq!(fs.inode_path(ino), Some("b.txt".to_string()));
}

#[test]
fn rmdir_shares_unlink() {
    let mut fs = RemoteFS::new(small_config());
    let ino = fs.alloc_inode("d".to_string());
    assert_eq!(fs.rmdir(1, "d", true), Ok(()));
    assert_eq!(fs.inode_path(ino), None);
}

#[test]
fn rename_rebinds_the_inode() {
    let mut fs = RemoteFS::new(small_config());
    let listing = vec![entry("b.txt", false, 3)];
    let ino = fs.lookup(1, "b.txt", Some(&listing)).unwrap().ino;
    fs.store_file_data("b.txt", &b"hi\n".to_vec(), 0);
    let (old_path, new_path) = fs.rename_prepare(1, "b.txt", 1, "b2.txt");
    assert_eq!(old_path, "b.txt");
    assert_eq!(new_path, "b2.txt");
    // The prepare step already invalidated both paths.
    assert!(fs.cached_file_data("b.txt", 0).is_none());
    fs.rename_commit(&old_path, new_path);
    assert_eq!(fs.inode_path(ino), Some("b2.txt".to_string()));
    // The old path is free again; the new path keeps the old inode.
    let listing2 = vec![entry("b2.txt", false, 3)];
    assert_eq!(fs.lookup(1, "b2.txt", Some(&listing2)).unwrap().ino, ino);
    assert_eq!(fs.lookup(1, "b.txt", Some(&listing2)), Err(Errno::NotFound));
}

#[test]
fn rename_onto_live_path_keeps_table_one_to_one() {
    let mut fs = RemoteFS::new(small_config());
    let src = fs.alloc_inode("a".to_string());
    let dst = fs.alloc_inode("b".to_string());
    let (old_path, new_path) = fs.rename_prepare(1, "a", 1, "b");
    fs.rename_commit(&old_path, new_path);
    assert_eq!(fs.inode_path(src), Some("b".to_string()));
    // The displaced inode is gone rather than left pointing at the path.
    assert_eq!(fs.inode_path(dst), None);
}

#[test]
fn setattr_truncate_reports_size_zero() {
    let mut fs = RemoteFS::new(small_config());
    let ino = fs.alloc_inode("b.txt".to_string());
    fs.store_file_data("b.txt", &b"hi\n".to_vec(), 0);
    let path = fs.setattr_truncate_path(ino, Some(0)).unwrap();
    assert_eq!(path, "b.txt");
    let attr = fs.setattr_commit(ino, &path);
    assert_eq!(attr.size, 0);
    assert_eq!(attr.ino, ino);
    // The truncation dropped the cached body.
    assert!(fs.cached_file_data("b.txt", 0).is_none());
    // A later getattr against the post-truncate listing reports zero.
    let listing = vec![entry("b.txt", false, 0)];
    assert_eq!(fs.getattr(ino, Some(&listing)).unwrap().size, 0);
}

#[test]
fn setattr_other_changes_are_ignored() {
    let mut fs = RemoteFS::new(small_config());
    let ino = fs.alloc_inode("b.txt".to_string());
    assert!(fs.setattr_truncate_path(ino, Some(5)).is_none());
    assert!(fs.setattr_truncate_path(ino, None).is_none());
    assert!(fs.setattr_truncate_path(42, Some(0)).is_none());
}

#[test]
fn flush_keeps_dirty_on_failure() {
    let mut fs = RemoteFS::new(small_config());
    let (_, fh) = fs.create(1, "c.txt", true).unwrap();
    fs.write(fh, 0, &b"data".to_vec()).unwrap();
    // The upload failed: the caller does not commit, so the payload is
    // still there and the next flush retries.
    assert!(fs.flush_payload(fh).is_some());
    assert!(fs.flush_payload(fh).is_some());
    fs.flush_commit(fh);
    assert!(fs.flush_payload(fh).is_none());
}

#[test]
fn mutations_invalidate_parent_listing() {
    let mut fs = RemoteFS::new(small_config());
    let listing = vec![entry("old.txt", false, 1)];
    fs.store_listing("", &listing, 0);
    assert!(fs.cached_listing("", 0).is_some());
    let _ = fs.create(1, "new.txt", true).unwrap();
    // The root listing would now be stale: it was dropped.
    assert!(fs.cached_listing("", 0).is_none());
}

#[test]
fn getattr_in_a_subdirectory_matches_the_filename() {
    let mut fs = RemoteFS::new(small_config());
    let ino = fs.alloc_inode("docs/report.txt".to_string());
    let listing = vec![entry("report.txt", false, 99), entry("other", false, 1)];
    let attr = fs.getattr(ino, Some(&listing)).unwrap();
    assert_eq!(attr.ino, ino);
    assert_eq!(attr.size, 99);
}

#[test]
fn readdir_in_a_subdirectory_binds_full_child_paths() {
    let mut fs = RemoteFS::new(small_config());
    let dir = fs.alloc_inode("docs".to_string());
    let listing = vec![entry("a.txt", false, 1)];
    let rows = fs.readdir(dir, 0, Some(&listing));
    assert_eq!(rows.len(), 3);
    assert_eq!(rows[2].name, "a.txt");
    // The child was bound under its full path, not just its name.
    assert_eq!(fs.inode_path(rows[2].ino), Some("docs/a.txt".to_string()));
}

fn kind_of(r: &ReadOutcome) -> &'static str {
    match r {
        ReadOutcome::Buffered(_) => "buffered",
        ReadOutcome::Cached(_) => "cached",
        ReadOutcome::NeedRange(_) => "range",
        ReadOutcome::Unknown => "unknown",
    }
}
