use mdbook_drawio::cache::{CacheError, CacheOp, DrawIoCache};
use mdbook_drawio::paths::BookPath;

#[test]
fn cache_test() {
    let resources_dir = BookPath::parse("resources");

    let mut draw_io_cache = DrawIoCache::new(BookPath::parse("cache_root"));

    // cache miss.
    let f = draw_io_cache.get_diagram(
        &resources_dir.join(&BookPath::parse("testdiagram.drawio")),
        "page1",
        10,
    );
    assert!(f.is_err());

    draw_io_cache
        .add_diagram(
            &resources_dir.join(&BookPath::parse("testdiagram.drawio")),
            "page1",
            "hello world",
            10,
        )
        .unwrap();

    let f = draw_io_cache.get_diagram(
        &resources_dir.join(&BookPath::parse("testdiagram.drawio")),
        "page1",
        10,
    );
    assert!(f.is_ok());
    assert_eq!(f, Ok("hello world".to_string()));
}

#[test]
fn put_twice_then_get_returns_content_once() {
    let mut cache = DrawIoCache::new(BookPath::parse("root"));
    let key = BookPath::parse("d/diagram");
    cache.add_diagram(&key, "p.svg", "<svg >once</svg>", 5).unwrap();
    cache.add_diagram(&key, "p.svg", "<svg >once</svg>", 7).unwrap();
    assert_eq!(
        cache.get_diagram(&key, "p.svg", 5),
        Ok("<svg >once</svg>".to_string())
    );
    // a second get still returns the same single entry
    assert_eq!(
        cache.get_diagram(&key, "p.svg", 5),
        Ok("<svg >once</svg>".to_string())
    );
}

#[test]
fn stale_entry_is_removed_and_reported_absent() {
    let mut cache = DrawIoCache::new(BookPath::parse("root"));
    let key = BookPath::parse("diagram");
    cache.add_diagram(&key, "p.svg", "old", 10).unwrap();
    assert_eq!(cache.get_time(&key, "p.svg"), Some(10));

    // the diagram source was modified later than the entry was stored
    let f = cache.get_diagram(&key, "p.svg", 20);
    assert_eq!(f, Err(CacheError::Miss));

    // the stale entry was removed, not merely ignored
    assert_eq!(cache.get_time(&key, "p.svg"), None);
    assert_eq!(cache.get_diagram(&key, "p.svg", 0), Err(CacheError::Miss));

    // and its removal reaches the journal, after the original write
    let ops = cache.take_journal();
    assert_eq!(ops.len(), 2);
    match &ops[0] {
        CacheOp::Write { path, content } => {
            assert_eq!(path.to_string(), "root/diagram/p.svg");
            assert_eq!(content, "old");
        }
        _ => panic!("expected a write"),
    }
    match &ops[1] {
        CacheOp::Remove { path } => {
            assert_eq!(path.to_string(), "root/diagram/p.svg");
        }
        _ => panic!("expected a removal"),
    }
}

#[test]
fn put_then_get_round_trips() {
    let mut cache = DrawIoCache::new(BookPath::parse("the/cache/root"));
    let key = BookPath::parse("some/dir/diagram");
    let content = "arbitrary text \n with lines & <markup/>";
    cache.add_diagram(&key, "Page-2.svg", content, 42).unwrap();
    assert_eq!(
        cache.get_diagram(&key, "Page-2.svg", 42),
        Ok(content.to_string())
    );
}

#[test]
fn rejects_absolute_paths_as_cache_keys() {
    let mut cache = DrawIoCache::new(BookPath::parse("root"));
    let abs = BookPath::parse("/abs/path");
    assert_eq!(
        cache.get_diagram(&abs, "p", 0),
        Err(CacheError::InvalidPath)
    );
    assert_eq!(
        cache.add_diagram(&abs, "p", "x", 0),
        Err(CacheError::InvalidPath)
    );
    assert_eq!(cache.clear_diagram(&abs, "p"), Err(CacheError::InvalidPath));
    assert_eq!(cache.get_time(&abs, "p"), None);
    assert_eq!(
        cache.get_diagram_cache_path(&abs, "p"),
        Err(CacheError::InvalidPath)
    );
}

#[test]
fn clear_diagram_removes_the_entry() {
    let mut cache = DrawIoCache::new(BookPath::parse("root"));
    let key = BookPath::parse("d");
    cache.add_diagram(&key, "p.svg", "x", 1).unwrap();
    cache.clear_diagram(&key, "p.svg").unwrap();
    assert_eq!(cache.get_diagram(&key, "p.svg", 0), Err(CacheError::Miss));
    // clearing an absent entry is a no-op
    cache.clear_diagram(&key, "p.svg").unwrap();
}

#[test]
fn cache_path_is_root_then_key_then_page() {
    let cache = DrawIoCache::new(BookPath::parse("/tmp/book/.cache"));
    let p = cache
        .get_diagram_cache_path(&BookPath::parse("src/blah"), "page1.svg")
        .unwrap();
    assert_eq!(p.to_string(), "/tmp/book/.cache/src/blah/page1.svg");
}

#[test]
fn load_entry_does_not_override_newer_store() {
    let mut cache = DrawIoCache::new(BookPath::parse("root"));
    let key = BookPath::parse("d");
    cache.add_diagram(&key, "p.svg", "fresh", 10).unwrap();
    // what the disk shows is older than what this process wrote
    cache.load_entry(&key, "p.svg", 3, "stale-on-disk");
    assert_eq!(cache.get_diagram(&key, "p.svg", 0), Ok("fresh".to_string()));
}
