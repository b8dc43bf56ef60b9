use remote_fs::adapter::FsError;
use remote_fs::fs::RemoteFS;
use remote_fs::paths::{filename_of, join_path, parent_of, str_eq};
use remote_fs::types::{make_attr, CacheConfig, Errno};

#[test]
fn join_path_at_root_and_below() {
    assert_eq!(join_path("", "a"), "a");
    assert_eq!(join_path("a", "b"), "a/b");
    assert_eq!(join_path("a/b", "c.txt"), "a/b/c.txt");
}

#[test]
fn parent_of_strips_the_last_component() {
    assert_eq!(parent_of("a/b/c"), "a/b");
    assert_eq!(parent_of("a/b"), "a");
    assert_eq!(parent_of("a"), "");
    assert_eq!(parent_of(""), "");
}

#[test]
fn filename_of_keeps_the_last_component() {
    assert_eq!(filename_of("a/b/c.txt"), "c.txt");
    assert_eq!(filename_of("c.txt"), "c.txt");
    assert_eq!(filename_of(""), "");
    assert_eq!(filename_of("a/"), "");
}

#[test]
fn str_eq_compares_contents() {
    assert!(str_eq("", ""));
    assert!(str_eq("abc", "abc"));
    assert!(!str_eq("abc", "abd"));
    assert!(!str_eq("abc", "ab"));
}

#[test]
fn root_identity_holds() {
    let mut fs = RemoteFS::new(CacheConfig::default());
    assert_eq!(fs.alloc_inode(String::new()), 1);
    assert_eq!(fs.inode_path(1), Some(String::new()));
}

#[test]
fn alloc_inode_is_idempotent_and_monotonic() {
    let mut fs = RemoteFS::new(CacheConfig::default());
    let a = fs.alloc_inode("a".to_string());
    let b = fs.alloc_inode("b".to_string());
    assert_eq!(a, 2);
    assert_eq!(b, 3);
    // The same path again returns the same inode without burning a number.
    assert_eq!(fs.alloc_inode("a".to_string()), 2);
    assert_eq!(fs.alloc_inode("c".to_string()), 4);
}

#[test]
fn inode_and_path_stay_in_step() {
    let mut fs = RemoteFS::new(CacheConfig::default());
    let ino = fs.alloc_inode("x/y".to_string());
    assert_eq!(fs.inode_path(ino), Some("x/y".to_string()));
    fs.remove_inode("x/y");
    assert_eq!(fs.inode_path(ino), None);
}

#[test]
fn cache_config_from_cli() {
    let c = CacheConfig::from_cli(false, 7, 11, 2);
    assert_eq!(c.dir_ttl, 7);
    assert_eq!(c.file_ttl, 11);
    assert_eq!(c.max_file_cache_bytes, 2 * 1024 * 1024);
    let off = CacheConfig::from_cli(true, 7, 11, 2);
    assert_eq!(off.dir_ttl, 0);
    assert_eq!(off.file_ttl, 0);
    assert_eq!(off.max_file_cache_bytes, 0);
}

#[test]
fn cache_config_default_values() {
    let c = CacheConfig::default();
    assert_eq!(c.dir_ttl, 5);
    assert_eq!(c.file_ttl, 10);
    assert_eq!(c.max_file_cache_bytes, 64 * 1024 * 1024);
}

#[test]
fn attr_fields_follow_kind_and_size() {
    let f = make_attr(5, 1025, false);
    assert_eq!(f.ino, 5);
    assert_eq!(f.size, 1025);
    assert_eq!(f.blocks, 3);
    assert_eq!(f.perm, 0o644);
    assert_eq!(f.nlink, 1);
    assert_eq!(f.uid, 1000);
    assert_eq!(f.gid, 1000);
    assert_eq!(f.blksize, 512);
    let d = make_attr(1, 0, true);
    assert_eq!(d.blocks, 0);
    assert_eq!(d.perm, 0o755);
    assert_eq!(d.nlink, 2);
    assert_eq!(make_attr(1, 512, false).blocks, 1);
    assert_eq!(make_attr(1, 513, false).blocks, 2);
}

#[test]
fn errno_codes_match_posix() {
    assert_eq!(Errno::NotFound.code(), 2);
    assert_eq!(Errno::Io.code(), 5);
    assert_eq!(Errno::BadHandle.code(), 9);
}

#[test]
fn fs_error_messages() {
    assert_eq!(
        FsError::MountPointNotFound("/mnt/x".to_string()).message(),
        "Mount point not found: /mnt/x"
    );
    assert_eq!(FsError::FuseNotAvailable.message(), "FUSE is not available on this system");
    assert_eq!(FsError::IoError("broken pipe".to_string()).message(), "I/O error: broken pipe");
    assert_eq!(FsError::RemoteError("500".to_string()).message(), "Remote server error: 500");
    assert_eq!(FsError::ConfigError("bad ttl".to_string()).message(), "Configuration error: bad ttl");
    assert_eq!(FsError::PermissionDenied("root".to_string()).message(), "Permission denied: root");
    assert_eq!(FsError::Other("?".to_string()).message(), "Error: ?");
}
