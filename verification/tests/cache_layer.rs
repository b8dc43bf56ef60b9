use remote_fs::fs::RemoteFS;
use remote_fs::types::{CacheConfig, RemoteEntry};

fn config(max_bytes: usize) -> CacheConfig {
    CacheConfig { dir_ttl: 5, file_ttl: 10, max_file_cache_bytes: max_bytes }
}

#[test]
fn eviction_keeps_the_budget() {
    let mut fs = RemoteFS::new(config(1024));
    let body = vec![7u8; 500];
    fs.store_file_data("f1", &body, 0);
    fs.store_file_data("f2", &body, 1);
    assert_eq!(fs.file_cache_size(), 1000);
    fs.store_file_data("f3", &body, 2);
    // The third insertion pushed the total over 1024, so the oldest
    // entry went first.
    assert_eq!(fs.file_cache_size(), 1000);
    assert!(fs.cached_file_data("f1", 2).is_none());
    assert!(fs.cached_file_data("f2", 2).is_some());
    assert!(fs.cached_file_data("f3", 2).is_some());
}

#[test]
fn oversized_body_is_not_cached() {
    let mut fs = RemoteFS::new(config(1024));
    fs.store_file_data("small", &vec![1u8; 100], 0);
    fs.store_file_data("huge", &vec![2u8; 2000], 1);
    assert!(fs.cached_file_data("huge", 1).is_none());
    // A body over the whole budget evicts nothing.
    assert!(fs.cached_file_data("small", 1).is_some());
    assert_eq!(fs.file_cache_size(), 100);
}

#[test]
fn restoring_a_path_replaces_its_entry() {
    let mut fs = RemoteFS::new(config(1024));
    fs.store_file_data("f", &vec![1u8; 600], 0);
    fs.store_file_data("f", &vec![2u8; 700], 1);
    // The byte counter follows the replacement instead of double-counting.
    assert_eq!(fs.file_cache_size(), 700);
    assert_eq!(fs.cached_file_data("f", 1), Some(vec![2u8; 700]));
}

#[test]
fn file_ttl_ages_entries_out() {
    let mut fs = RemoteFS::new(config(1024));
    fs.store_file_data("f", &b"abc".to_vec(), 5);
    assert!(fs.cached_file_data("f", 5).is_some());
    assert!(fs.cached_file_data("f", 14).is_some());
    assert!(fs.cached_file_data("f", 15).is_none());
}

#[test]
fn dir_ttl_ages_listings_out() {
    let mut fs = RemoteFS::new(config(1024));
    let listing = vec![RemoteEntry { name: "a".to_string(), is_dir: true, size: 0 }];
    fs.store_listing("d", &listing, 0);
    let got = fs.cached_listing("d", 4).unwrap();
    assert_eq!(got.len(), 1);
    assert_eq!(got[0].name, "a");
    assert!(got[0].is_dir);
    assert!(fs.cached_listing("d", 5).is_none());
    assert!(fs.cached_listing("other", 0).is_none());
}

#[test]
fn no_cache_configuration_serves_nothing() {
    let mut fs = RemoteFS::new(CacheConfig { dir_ttl: 0, file_ttl: 0, max_file_cache_bytes: 0 });
    let listing = vec![RemoteEntry { name: "a".to_string(), is_dir: false, size: 1 }];
    fs.store_listing("", &listing, 0);
    assert!(fs.cached_listing("", 0).is_none());
    fs.store_file_data("a", &b"x".to_vec(), 0);
    assert!(fs.cached_file_data("a", 0).is_none());
    assert_eq!(fs.file_cache_size(), 0);
}

#[test]
fn invalidate_drops_path_parent_and_body() {
    let mut fs = RemoteFS::new(config(1024));
    let sub = vec![RemoteEntry { name: "f".to_string(), is_dir: false, size: 1 }];
    let root = vec![RemoteEntry { name: "d".to_string(), is_dir: true, size: 0 }];
    fs.store_listing("", &root, 0);
    fs.store_listing("d", &sub, 0);
    fs.store_listing("d/f", &sub, 0);
    fs.store_file_data("d/f", &b"body".to_vec(), 0);
    fs.invalidate("d/f");
    // Its own listing, the parent listing and the body are gone...
    assert!(fs.cached_listing("d/f", 0).is_none());
    assert!(fs.cached_listing("d", 0).is_none());
    assert!(fs.cached_file_data("d/f", 0).is_none());
    // ...while the unrelated root listing survives.
    assert!(fs.cached_listing("", 0).is_some());
}

#[test]
fn listing_copies_are_deep() {
    let mut fs = RemoteFS::new(config(1024));
    let listing = vec![
        RemoteEntry { name: "x".to_string(), is_dir: false, size: 7 },
        RemoteEntry { name: "y".to_string(), is_dir: true, size: 0 },
    ];
    fs.store_listing("", &listing, 0);
    let got = fs.cached_listing("", 0).unwrap();
    assert_eq!(got.len(), 2);
    assert_eq!(got[0].name, "x");
    assert_eq!(got[0].size, 7);
    assert!(!got[0].is_dir);
    assert_eq!(got[1].name, "y");
    assert!(got[1].is_dir);
}
