//! Identifiers, merging, the database bundle, and the command cores.

use blogtato::commands::cmd_add;
use blogtato::commands::cmd_open;
use blogtato::commands::cmd_remove;
use blogtato::commands::resolve_shorthand;
use blogtato::error::StoreError;
use blogtato::feed::FeedItem;
use blogtato::feed::FeedSource;
use blogtato::git::classify;
use blogtato::git::collect_remote_rows;
use blogtato::git::is_data_file;
use blogtato::git::RemoteFile;
use blogtato::git::SyncClass;
use blogtato::ident::hash_id;
use blogtato::ident::id_length_for_capacity;
use blogtato::ident::shard_key;
use blogtato::row::Row;
use blogtato::row::TableRow;
use blogtato::shorthand::compute_shorthands;
use blogtato::shorthand::hex_to_base9;
use blogtato::store::Store;
use blogtato::table::Table;
use blogtato::ts::Timestamp;

fn feed(url: &str, title: &str) -> FeedSource {
    FeedSource {
        url: url.to_string(),
        title: title.to_string(),
        site_url: String::new(),
        description: String::new(),
    }
}

fn post(raw_id: &str, title: &str, feed_id: &str) -> FeedItem {
    FeedItem {
        title: title.to_string(),
        date: None,
        feed: feed_id.to_string(),
        link: String::new(),
        raw_id: raw_id.to_string(),
    }
}

fn live_row(table: &Table<FeedSource>, item: FeedSource, at: Timestamp) -> Row<FeedSource> {
    let id = table.id_of(&item);
    Row::Live { id, inner: item, updated_at: Some(at) }
}

fn ts(secs: i64) -> Timestamp {
    Timestamp { secs, nanos: 0 }
}

#[test]
fn test_hash_id_known_digest() {
    // SHA-256("abc") begins ba7816bf8f01cfea...
    assert_eq!(hash_id("abc", 8), "ba7816bf");
    assert_eq!(hash_id("abc", 16), "ba7816bf8f01cfea");
    assert_eq!(hash_id("", 8), "e3b0c442");
}

#[test]
fn test_hash_id_is_deterministic() {
    for len in [4, 11, 16, 64] {
        assert_eq!(hash_id("some natural key", len), hash_id("some natural key", len));
    }
}

#[test]
fn test_id_length_for_capacity_values() {
    assert_eq!(id_length_for_capacity(0), 4);
    assert_eq!(id_length_for_capacity(1), 4);
    assert_eq!(id_length_for_capacity(2), 4);
    assert_eq!(id_length_for_capacity(1000), 8);
    assert_eq!(id_length_for_capacity(50_000), 11);
    assert_eq!(id_length_for_capacity(100_000_000), 16);
}

#[test]
fn test_id_length_is_monotonic() {
    let mut last = 0;
    for k in [0, 1, 2, 10, 100, 1000, 10_000, 1_000_000, 100_000_000, 10_000_000_000] {
        let len = id_length_for_capacity(k);
        assert!(len >= 4);
        assert!(len >= last, "length shrank at capacity {}", k);
        last = len;
    }
}

#[test]
fn test_shard_key_prefixes() {
    assert_eq!(shard_key("abcdef", 0), "");
    assert_eq!(shard_key("abcdef", 2), "ab");
    assert_eq!(shard_key("abcdef", 10), "abcdef");
}

#[test]
fn test_merge_remote_last_writer_wins() {
    // Local has "A" at T1; a remote "B" at a later T2 replaces it.
    let mut local = Table::<FeedSource>::new();
    local.upsert_at(feed("u", "A"), ts(100));
    let remote = vec![live_row(&local, feed("u", "B"), ts(200))];
    local.merge_remote(remote);
    assert_eq!(local.items()[0].title, "B");

    // With an earlier remote stamp the local row stays.
    let mut local = Table::<FeedSource>::new();
    local.upsert_at(feed("u", "A"), ts(100));
    let remote = vec![live_row(&local, feed("u", "B"), ts(50))];
    local.merge_remote(remote);
    assert_eq!(local.items()[0].title, "A");
}

#[test]
fn test_merge_ties_keep_local_row() {
    let mut local = Table::<FeedSource>::new();
    local.upsert_at(feed("u", "A"), ts(100));
    let remote = vec![live_row(&local, feed("u", "B"), ts(100))];
    local.merge_remote(remote);
    assert_eq!(local.items()[0].title, "A");
}

#[test]
fn test_merge_tombstone_wins_on_equal_stamp() {
    // A deletion no earlier than the live row's change wins.
    let mut local = Table::<FeedSource>::new();
    local.upsert_at(feed("u", "A"), ts(100));
    let id = local.id_of(&feed("u", "A"));
    let remote = vec![Row::Tombstone { id, deleted_at: ts(100) }];
    local.merge_remote(remote);
    assert_eq!(local.items().len(), 0);
}

#[test]
fn test_merge_adopts_remote_only_rows_and_keeps_local_only() {
    let mut local = Table::<FeedSource>::new();
    local.upsert_at(feed("mine", "Local"), ts(100));
    let remote = vec![live_row(&local, feed("theirs", "Remote"), ts(100))];
    local.merge_remote(remote);
    let titles: Vec<String> = local.items().iter().map(|i| i.title.clone()).collect();
    assert!(titles.contains(&"Local".to_string()));
    assert!(titles.contains(&"Remote".to_string()));
}

fn saved_bytes(table: &Table<FeedSource>) -> Vec<(String, String)> {
    table.save().into_iter().map(|f| (f.name, f.content)).collect()
}

#[test]
fn test_merge_is_associative_on_concrete_states() {
    // merge(A, merge(B, C)) and merge(merge(A, B), C) give byte-identical
    // stores.
    let build = |rows: &[(&str, &str, i64)]| {
        let mut t = Table::<FeedSource>::new();
        for (u, title, at) in rows {
            t.upsert_at(feed(u, title), ts(*at));
        }
        t
    };
    let a = [("x", "ax", 10i64), ("y", "ay", 30)];
    let b = [("x", "bx", 20i64), ("z", "bz", 5)];
    let c = [("y", "cy", 40i64), ("z", "cz", 1)];

    let mut left = build(&a);
    let mut bc = build(&b);
    bc.merge_remote(build(&c).into_rows());
    left.merge_remote(bc.into_rows());

    let mut right = build(&a);
    right.merge_remote(build(&b).into_rows());
    right.merge_remote(build(&c).into_rows());

    assert_eq!(saved_bytes(&left), saved_bytes(&right));
}

#[test]
fn test_merge_twice_is_a_no_op() {
    let mut local = Table::<FeedSource>::new();
    local.upsert_at(feed("u", "A"), ts(100));
    let remote = vec![live_row(&local, feed("u", "B"), ts(200))];
    let remote2 = vec![live_row(&local, feed("u", "B"), ts(200))];
    local.merge_remote(remote);
    let once = saved_bytes(&local);
    local.merge_remote(remote2);
    assert_eq!(saved_bytes(&local), once);
}

#[test]
fn test_store_open_and_save() {
    let mut feeds = Table::<FeedSource>::new();
    feeds.upsert(feed("https://example.com/feed", "Example"));
    let mut posts = Table::<FeedItem>::new();
    posts.upsert(post("p1", "Post One", "someid"));
    let store = Store::new(feeds, posts);

    let (feed_files, post_files) = store.save();
    let reopened = Store::open(&feed_files, &post_files).unwrap();
    assert_eq!(reopened.feeds().items().len(), 1);
    assert_eq!(reopened.posts().items().len(), 1);
}

#[test]
fn test_store_open_reports_bad_file() {
    let bad = vec![blogtato::table::ShardFile {
        name: "items_.jsonl".to_string(),
        content: "garbage\n".to_string(),
    }];
    match Store::open(&bad, &Vec::new()) {
        Err(StoreError::ParseError { file }) => assert_eq!(file, "items_.jsonl"),
        other => panic!("expected a parse error, got {:?}", other.is_ok()),
    }
}

#[test]
fn test_resolve_shorthand_finds_each_feed() {
    let mut feeds = Table::<FeedSource>::new();
    feeds.upsert(feed("https://a.example/feed", "A"));
    feeds.upsert(feed("https://b.example/feed", "B"));

    // Recompute the shorthands the listing would show, in URL order.
    let mut urls: Vec<String> = feeds.items().iter().map(|f| f.url.clone()).collect();
    urls.sort();
    let ids: Vec<String> = urls
        .iter()
        .map(|u| {
            feeds.id_of(&feed(u, ""))
        })
        .collect();
    let shorthands = compute_shorthands(&ids);
    for (url, sh) in urls.iter().zip(shorthands.iter()) {
        assert_eq!(resolve_shorthand(&feeds, sh).as_deref(), Some(url.as_str()));
    }
    assert_eq!(resolve_shorthand(&feeds, "no-such-shorthand"), None);
}

#[test]
fn test_cmd_add_subscribes_bare_feed() {
    let mut feeds = Table::<FeedSource>::new();
    cmd_add(&mut feeds, "https://example.com/feed");
    let items = feeds.items();
    assert_eq!(items.len(), 1);
    assert_eq!(items[0].url, "https://example.com/feed");
    assert_eq!(items[0].title, "");
}

#[test]
fn test_cmd_remove_deletes_feed_and_its_posts() {
    let mut feeds = Table::<FeedSource>::new();
    cmd_add(&mut feeds, "https://a.example/feed");
    let fid = feeds.id_of(&feed("https://a.example/feed", ""));

    let mut posts = Table::<FeedItem>::new();
    posts.upsert(post("p1", "Keep Me Not", &fid));
    posts.upsert(post("p2", "Unrelated", "otherfeed"));

    cmd_remove(&mut feeds, &mut posts, "https://a.example/feed").unwrap();
    assert_eq!(feeds.items().len(), 0);
    let titles: Vec<String> = posts.items().iter().map(|p| p.title.clone()).collect();
    assert_eq!(titles, vec!["Unrelated".to_string()]);
}

#[test]
fn test_cmd_remove_unknown_feed_reports_not_found() {
    let mut feeds = Table::<FeedSource>::new();
    let mut posts = Table::<FeedItem>::new();
    match cmd_remove(&mut feeds, &mut posts, "https://nobody.example/feed") {
        Err(StoreError::NotFound) => {},
        _ => panic!("expected not-found"),
    }
    match cmd_remove(&mut feeds, &mut posts, "@zz") {
        Err(StoreError::NotFound) => {},
        _ => panic!("expected not-found for an unknown shorthand"),
    }
}

#[test]
fn test_cmd_open_returns_link_of_first_post() {
    let mut posts = Table::<FeedItem>::new();
    let mut p = post("p1", "Post", "f");
    p.link = "https://example.com/post/1".to_string();
    posts.upsert(p);
    // A single post sits at listing position 0, shorthand "a".
    assert_eq!(cmd_open(&posts, "a").unwrap(), "https://example.com/post/1");
    match cmd_open(&posts, "zzz") {
        Err(StoreError::NotFound) => {},
        _ => panic!("expected not-found for an unknown shorthand"),
    }
}

#[test]
fn test_cmd_open_post_without_link_reports_not_found() {
    let mut posts = Table::<FeedItem>::new();
    posts.upsert(post("p1", "No Link", "f"));
    match cmd_open(&posts, "a") {
        Err(StoreError::NotFound) => {},
        _ => panic!("expected not-found for a post without a link"),
    }
}

#[test]
fn test_classify_sync_paths() {
    let head = vec![1u8, 2, 3];
    let same = vec![1u8, 2, 3];
    let other = vec![9u8, 9, 9];
    assert_eq!(classify(&head, &same, false), SyncClass::UpToDate);
    assert_eq!(classify(&head, &same, true), SyncClass::UpToDate);
    assert_eq!(classify(&head, &other, true), SyncClass::LocalAhead);
    assert_eq!(classify(&head, &other, false), SyncClass::Diverged);
}

#[test]
fn test_is_data_file_matches_shard_paths_only() {
    assert!(is_data_file("feeds/items_.jsonl"));
    assert!(is_data_file("posts/items_a.jsonl"));
    assert!(!is_data_file("items_.jsonl"));
    assert!(!is_data_file("feeds/.lock"));
    assert!(!is_data_file("random.txt"));
    assert!(!is_data_file("feeds/items_.jsonl.tmp"));
    // Unrelated line-delimited files outside the shard pattern never
    // count as store data.
    assert!(!is_data_file("notes/x.jsonl"));
    assert!(!is_data_file("feeds/other.jsonl"));
}

fn remote_file(name: &str, content: Option<&str>) -> RemoteFile {
    RemoteFile {
        name: name.to_string(),
        content: content.map(|c| c.to_string()),
    }
}

#[test]
fn test_collect_remote_rows_unions_shards_later_wins() {
    let files = vec![
        remote_file("items_.jsonl", Some("{\"id\":\"aa\",\"url\":\"first\"}\n")),
        remote_file("notes.txt", Some("ignored")),
        remote_file(
            "items_b.jsonl",
            Some("{\"id\":\"aa\",\"url\":\"second\"}\n{\"id\":\"bb\",\"url\":\"other\"}\n"),
        ),
    ];
    let rows = collect_remote_rows::<FeedSource>("feeds", &files).unwrap();
    assert_eq!(rows.len(), 2);
    // The duplicate identifier keeps the later file's payload.
    let urls: Vec<String> = rows
        .iter()
        .filter_map(|r| match r {
            Row::Live { inner, .. } => Some(inner.url.clone()),
            Row::Tombstone { .. } => None,
        })
        .collect();
    assert!(urls.contains(&"second".to_string()));
    assert!(urls.contains(&"other".to_string()));
    assert!(!urls.contains(&"first".to_string()));
}

#[test]
fn test_collect_remote_rows_names_failing_file_with_table() {
    let files = vec![remote_file("items_.jsonl", Some("not valid json\n"))];
    match collect_remote_rows::<FeedSource>("feeds", &files) {
        Err(StoreError::ParseError { file }) => assert_eq!(file, "feeds/items_.jsonl"),
        _ => panic!("expected a parse error naming the shard"),
    }
    // A shard entry that is not text fails the same way.
    let files = vec![remote_file("items_a.jsonl", None)];
    match collect_remote_rows::<FeedSource>("posts", &files) {
        Err(StoreError::ParseError { file }) => assert_eq!(file, "posts/items_a.jsonl"),
        _ => panic!("expected a parse error naming the shard"),
    }
}

#[test]
fn test_store_open_names_posts_file_on_error() {
    let good = Table::<FeedSource>::new().save();
    let bad = vec![blogtato::table::ShardFile {
        name: "items_x.jsonl".to_string(),
        content: "garbage\n".to_string(),
    }];
    match Store::open(&good, &bad) {
        Err(StoreError::ParseError { file }) => assert_eq!(file, "items_x.jsonl"),
        other => panic!("expected a parse error, got {:?}", other.is_ok()),
    }
}

#[test]
fn test_error_messages_name_their_cause() {
    assert_eq!(StoreError::NotFound.message(), "not found");
    assert_eq!(
        StoreError::ParseError { file: "feeds/items_.jsonl".to_string() }.message(),
        "failed to parse entry in feeds/items_.jsonl"
    );
    assert!(StoreError::DirtyTree.message().contains("uncommitted"));
    assert!(StoreError::NoRemote.message().contains("no remote"));
    assert!(
        StoreError::FetchFailed { detail: "boom".to_string() }.message().contains("boom")
    );
    assert!(
        StoreError::PushFailed { detail: "boom".to_string() }.message().contains("boom")
    );
}

#[test]
fn test_hex_to_base9_empty_input_encodes_like_zero() {
    assert_eq!(hex_to_base9(""), "a");
}

#[test]
fn test_upsert_respects_capacity_id_length() {
    // Feed identifiers are 11 hex digits, post identifiers 16.
    let mut feeds = Table::<FeedSource>::new();
    feeds.upsert(feed("u", "t"));
    let frows = feeds.into_rows();
    assert_eq!(frows[0].id().len(), 11);

    let mut posts = Table::<FeedItem>::new();
    posts.upsert(post("p", "t", "f"));
    let prows = posts.into_rows();
    assert_eq!(prows[0].id().len(), 16);
}

#[test]
fn test_escaped_titles_roundtrip() {
    let mut table = Table::<FeedSource>::new();
    let tricky = "a \"quoted\" title \\ with\nnewline\tand tab\u{1}";
    table.upsert(feed("u", tricky));
    let loaded = Table::<FeedSource>::load(&table.save()).unwrap();
    assert_eq!(loaded.items()[0].title, tricky);
}

#[test]
fn test_load_rejects_invalid_date() {
    let files = vec![blogtato::table::ShardFile {
        name: "items_p.jsonl".to_string(),
        content:
            "{\"id\":\"p1\",\"title\":\"T\",\"feed\":\"\",\"date\":\"not-a-date\"}\n"
                .to_string(),
    }];
    assert!(Table::<FeedItem>::load(&files).is_err());
}

#[test]
fn test_updated_at_is_rendered_as_rfc3339() {
    let mut table = Table::<FeedSource>::new();
    table.upsert_at(feed("u", "t"), ts(1_705_312_800));
    let files = table.save();
    assert!(files[0].content.contains("\"updated_at\":\"2024-01-15T10:00:00Z\""));
}
