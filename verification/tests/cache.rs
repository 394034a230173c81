use virtualdj_library::cache::{CacheStep, LibraryCache};
use virtualdj_library::error::LibraryError;
use virtualdj_library::song::VirtualDJSong;

fn plain(path: &str) -> VirtualDJSong {
    VirtualDJSong {
        file_path: path.to_string(),
        file_size: None,
        tags: None,
        scan: None,
        infos: None,
        pois: vec![],
    }
}

const SOURCE: &str = "/home/dj/Documents/VirtualDJ/database.xml";

#[test]
fn new_cache_asks_for_a_reload() {
    let cache = LibraryCache::new();
    assert_eq!(cache.plan(SOURCE, 100), CacheStep::Reload);
    assert!(cache.tracks().is_empty());
    assert_eq!(cache.lookup("/a.mp3", true), None);
}

#[test]
fn loaded_cache_serves_the_unchanged_file() {
    let mut cache = LibraryCache::new();
    assert_eq!(cache.finish_reload(SOURCE.to_string(), 100, Ok(vec![plain("/a.mp3")])), Ok(()));
    assert_eq!(cache.plan(SOURCE, 100), CacheStep::Serve);
    assert_eq!(cache.plan(SOURCE, 100), CacheStep::Serve);
    assert_eq!(cache.tracks().len(), 1);
}

#[test]
fn changed_modification_time_asks_for_a_reload() {
    let mut cache = LibraryCache::new();
    cache.finish_reload(SOURCE.to_string(), 100, Ok(vec![plain("/a.mp3")])).unwrap();
    assert_eq!(cache.plan(SOURCE, 101), CacheStep::Reload);
    assert_eq!(cache.plan(SOURCE, 99), CacheStep::Reload);
    assert_eq!(cache.plan(SOURCE, -100), CacheStep::Reload);
}

#[test]
fn other_source_path_asks_for_a_reload() {
    let mut cache = LibraryCache::new();
    cache.finish_reload(SOURCE.to_string(), 100, Ok(vec![plain("/a.mp3")])).unwrap();
    assert_eq!(cache.plan("/elsewhere/database.xml", 100), CacheStep::Reload);
}

#[test]
fn reload_replaces_the_snapshot_whole() {
    let mut cache = LibraryCache::new();
    cache
        .finish_reload(SOURCE.to_string(), 100, Ok(vec![plain("/a.mp3"), plain("/b.mp3")]))
        .unwrap();
    cache.finish_reload(SOURCE.to_string(), 200, Ok(vec![plain("/c.mp3")])).unwrap();
    let paths: Vec<String> = cache.tracks().into_iter().map(|t| t.file_path).collect();
    assert_eq!(paths, vec!["/c.mp3"]);
    assert_eq!(cache.plan(SOURCE, 200), CacheStep::Serve);
    assert_eq!(cache.plan(SOURCE, 100), CacheStep::Reload);
    assert!(cache.lookup("/a.mp3", false).is_none());
    assert!(cache.lookup("/c.mp3", false).is_some());
}

#[test]
fn failed_reload_hands_the_failure_back_and_keeps_the_snapshot() {
    let mut cache = LibraryCache::new();
    cache.finish_reload(SOURCE.to_string(), 100, Ok(vec![plain("/a.mp3")])).unwrap();
    let failure = LibraryError::Parse("unexpected end of file".to_string());
    assert_eq!(
        cache.finish_reload(SOURCE.to_string(), 200, Err(failure.clone())),
        Err(failure)
    );
    assert_eq!(cache.plan(SOURCE, 100), CacheStep::Serve);
    assert_eq!(cache.plan(SOURCE, 200), CacheStep::Reload);
    assert_eq!(cache.tracks().len(), 1);
    let failure = LibraryError::Io("permission denied".to_string());
    assert_eq!(cache.finish_reload(SOURCE.to_string(), 300, Err(failure.clone())), Err(failure));
    assert!(cache.lookup("/a.mp3", false).is_some());
}

#[test]
fn failed_first_load_leaves_the_cache_empty() {
    let mut cache = LibraryCache::new();
    let failure = LibraryError::Io("no such file".to_string());
    assert_eq!(cache.finish_reload(SOURCE.to_string(), 100, Err(failure.clone())), Err(failure));
    assert_eq!(cache.plan(SOURCE, 100), CacheStep::Reload);
    assert!(cache.tracks().is_empty());
}

#[test]
fn two_lookups_of_an_unchanged_file_parse_once() {
    let mut cache = LibraryCache::new();
    let mut parses = 0;
    for _ in 0..2 {
        let parsed = cache
            .refresh(SOURCE, 100, || {
                parses += 1;
                Ok(vec![plain("/a.mp3")])
            })
            .unwrap();
        assert!(cache.lookup("/a.mp3", false).is_some());
        let _ = parsed;
    }
    assert_eq!(parses, 1);
}

#[test]
fn touching_the_file_forces_one_more_parse() {
    let mut cache = LibraryCache::new();
    let mut parses = 0;
    let mut said = Vec::new();
    for modified in [100, 100, 250, 250, 250] {
        let parsed = cache
            .refresh(SOURCE, modified, || {
                parses += 1;
                Ok(vec![plain("/a.mp3")])
            })
            .unwrap();
        said.push(parsed);
    }
    assert_eq!(parses, 2);
    assert_eq!(said, vec![true, false, true, false, false]);
}

#[test]
fn refresh_after_a_failure_tries_again() {
    let mut cache = LibraryCache::new();
    let first = cache.refresh(SOURCE, 100, || Err(LibraryError::Io("busy".to_string())));
    assert_eq!(first, Err(LibraryError::Io("busy".to_string())));
    let second = cache.refresh(SOURCE, 100, || Ok(vec![plain("/a.mp3")]));
    assert_eq!(second, Ok(true));
    let third = cache.refresh(SOURCE, 100, || Err(LibraryError::Io("busy".to_string())));
    assert_eq!(third, Ok(false));
}

#[test]
fn cached_duplicates_collapse_to_the_last() {
    let mut cache = LibraryCache::new();
    let mut early = plain("/a.mp3");
    early.file_size = Some("1".to_string());
    let mut late = plain("/a.mp3");
    late.file_size = Some("2".to_string());
    cache.finish_reload(SOURCE.to_string(), 1, Ok(vec![early, plain("/b.mp3"), late])).unwrap();
    let paths: Vec<String> = cache.tracks().into_iter().map(|t| t.file_path).collect();
    assert_eq!(paths, vec!["/a.mp3", "/b.mp3"]);
}
