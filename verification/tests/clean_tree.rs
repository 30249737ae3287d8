//! The clean traversal over a modelled directory tree: only cache files
//! are removed, other files survive, and directories emptied by the sweep
//! disappear while non-empty ones stay.

use disson::cache::{clean, clean_node, from_opts, DynamicCache, FsEntry, FsNode, NullCache};
use disson::cli::CacheMode;
use disson::map::CacheValue as MapCacheValue;

fn cache_file() -> FsNode {
    FsNode::File(vec![0, b'd', b'i', b's', b's', 1, 2, 3])
}

fn user_file(content: &[u8]) -> FsNode {
    FsNode::File(content.to_vec())
}

fn dir(entries: Vec<(&[u8], FsNode)>) -> FsNode {
    FsNode::Dir(
        entries.into_iter().map(|(n, node)| FsEntry { name: n.to_vec(), node }).collect(),
    )
}

#[test]
fn clean_spares_user_data_and_removes_emptied_dirs() {
    // Cache root: ab/cd… (a valid cache file), notes.txt (not magic), and
    // xx/README (not magic). The cache file and its directory go; the user
    // files and their directories stay.
    let root = dir(vec![
        (b"ab", dir(vec![(b"cdcdcd", cache_file())])),
        (b"notes.txt", user_file(b"my notes")),
        (b"xx", dir(vec![(b"README", user_file(b"hello"))])),
    ]);
    let cleaned = clean_node(&root).expect("the root keeps user data");
    match cleaned {
        FsNode::Dir(entries) => {
            assert_eq!(entries.len(), 2);
            assert_eq!(entries[0].name, b"notes.txt".to_vec());
            assert!(matches!(entries[0].node, FsNode::File(_)));
            assert_eq!(entries[1].name, b"xx".to_vec());
            match &entries[1].node {
                FsNode::Dir(inner) => {
                    assert_eq!(inner.len(), 1);
                    assert_eq!(inner[0].name, b"README".to_vec());
                },
                _ => panic!("xx must stay a directory"),
            }
        },
        _ => panic!("the root must stay a directory"),
    }
}

#[test]
fn clean_removes_a_fully_cached_tree() {
    let root = dir(vec![
        (b"ab", dir(vec![(b"x", cache_file()), (b"y", cache_file())])),
        (b"cd", dir(vec![])),
    ]);
    // Every file is a cache file and every directory ends up empty: the
    // whole tree is removed.
    assert!(clean_node(&root).is_none());
}

#[test]
fn short_files_are_not_cache_files() {
    // Fewer than five bytes can never match the magic.
    assert!(clean_node(&user_file(b"\0di")).is_some());
    // A prefix-matching five-byte file is a cache file.
    assert!(clean_node(&FsNode::File(vec![0, b'd', b'i', b's', b's'])).is_none());
    // A near miss stays.
    assert!(clean_node(&FsNode::File(vec![0, b'd', b'i', b's', b'x'])).is_some());
}

#[test]
fn clean_with_the_cache_disabled_touches_nothing() {
    let root = dir(vec![(b"ab", dir(vec![(b"x", cache_file())]))]);
    let kept = clean(CacheMode::Off, root).expect("a disabled cache cleans nothing");
    match kept {
        FsNode::Dir(entries) => assert_eq!(entries.len(), 1),
        _ => panic!("unchanged tree expected"),
    }
}

#[test]
fn clean_with_a_file_cache_sweeps() {
    let root = dir(vec![(b"ab", dir(vec![(b"x", cache_file())]))]);
    assert!(clean(CacheMode::File(None), root).is_none());
}

#[test]
fn the_null_cache_drops_everything() {
    let cache = NullCache;
    assert_eq!(cache.read().len(), 0);
    cache.write(&disson::cache::CacheValue::MapDomain(MapCacheValue::Histogram));
    assert_eq!(cache.read().len(), 0);
    cache.clean();
}

#[test]
fn the_cache_mode_selects_the_cache() {
    assert!(matches!(from_opts(CacheMode::Off), DynamicCache::Null(_)));
    assert!(matches!(from_opts(CacheMode::File(None)), DynamicCache::File(_)));
    assert!(matches!(
        from_opts(CacheMode::File(Some(b"/tmp/c".to_vec()))),
        DynamicCache::File(_)
    ));
}
