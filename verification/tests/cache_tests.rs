use arxiv_tui::cache::Cache;
use arxiv_tui::errors::CacheError;
use arxiv_tui::record::{Paper, Timestamp};

fn sample_paper() -> Paper {
    Paper {
        arxiv_id: String::from("1706.03762v1"),
        title: String::from("Attention Is All You Need"),
        authors: vec![String::from("Ashish Vaswani"), String::from("Noam Shazeer")],
        abstract_text: String::from("The dominant sequence transduction models are complex."),
        published: Timestamp { secs: 1497290254, nanos: 0 },
        updated: Timestamp { secs: 1497312000, nanos: 500 },
        categories: vec![String::from("cs.CL"), String::from("cs.LG")],
        pdf_url: String::from("http://arxiv.org/pdf/1706.03762v1"),
        comment: Some(String::from("15 pages")),
        journal_ref: None,
        doi: Some(String::from("10.0000/example")),
        primary_category: String::from("cs.CL"),
    }
}

#[test]
fn round_trip_preserves_every_field() {
    let mut cache: Cache<Paper> = Cache::new(String::from("/tmp/cache"));
    let original = sample_paper();
    cache.insert(String::from("1706.03762v1"), original.clone());
    let bytes = cache.save_bytes();

    let mut fresh: Cache<Paper> = Cache::new(String::from("/tmp/cache"));
    fresh.load_bytes(Some(bytes.as_slice())).expect("restore should succeed");
    let restored = fresh.get("1706.03762v1").expect("key should be present");
    assert_eq!(*restored, original);
}

#[test]
fn round_trip_with_negative_and_empty_values() {
    let mut cache: Cache<Paper> = Cache::new(String::new());
    let mut p = sample_paper();
    p.published = Timestamp { secs: -12345, nanos: 1 };
    p.authors = Vec::new();
    p.comment = None;
    p.doi = None;
    p.title = String::new();
    cache.insert(String::from("k"), p.clone());
    let bytes = cache.save_bytes();
    let mut fresh: Cache<Paper> = Cache::new(String::new());
    fresh.load_bytes(Some(bytes.as_slice())).expect("restore should succeed");
    assert_eq!(*fresh.get("k").expect("present"), p);
}

#[test]
fn load_on_missing_store_leaves_cache_empty() {
    let mut cache: Cache<Paper> = Cache::new(String::from("/tmp/cache"));
    let r = cache.load_bytes(None);
    assert!(r.is_ok());
    assert!(cache.get("anything").is_none());
}

#[test]
fn malformed_store_is_rejected() {
    let mut cache: Cache<Paper> = Cache::new(String::new());
    assert_eq!(
        cache.load_bytes(Some(b"not a table".as_slice())),
        Err(CacheError::Malformed)
    );
    assert_eq!(
        cache.load_bytes(Some(b"1:x".as_slice())),
        Err(CacheError::Malformed)
    );
}

#[test]
fn insert_replaces_and_clear_empties() {
    let mut cache: Cache<Paper> = Cache::new(String::new());
    let a = sample_paper();
    let mut b = sample_paper();
    b.title = String::from("Replacement");
    cache.insert(String::from("k"), a);
    cache.insert(String::from("k"), b.clone());
    assert_eq!(cache.get("k").expect("present").title, "Replacement");
    cache.insert(String::from("other"), b);
    cache.clear();
    assert!(cache.get("k").is_none());
    assert!(cache.get("other").is_none());
}

#[test]
fn multiple_keys_round_trip() {
    let mut cache: Cache<Paper> = Cache::new(String::new());
    let mut a = sample_paper();
    a.arxiv_id = String::from("a");
    let mut b = sample_paper();
    b.arxiv_id = String::from("b");
    cache.insert(String::from("a"), a.clone());
    cache.insert(String::from("b"), b.clone());
    let bytes = cache.save_bytes();
    let mut fresh: Cache<Paper> = Cache::new(String::new());
    fresh.load_bytes(Some(bytes.as_slice())).expect("restore should succeed");
    assert_eq!(*fresh.get("a").expect("a present"), a);
    assert_eq!(*fresh.get("b").expect("b present"), b);
    assert!(fresh.get("c").is_none());
}
