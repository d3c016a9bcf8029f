//! The table layer: upserts, deletions, saving, loading, and merging.

use blogtato::feed::FeedItem;
use blogtato::feed::FeedSource;
use blogtato::ident::hash_id;
use blogtato::ident::id_length_for_capacity;
use blogtato::row::Row;
use blogtato::row::TableRow;
use blogtato::table::ShardFile;
use blogtato::table::Table;
use blogtato::ts::Timestamp;

fn make_item(raw_id: &str, title: &str) -> FeedSource {
    FeedSource {
        url: raw_id.to_string(),
        title: title.to_string(),
        site_url: String::new(),
        description: String::new(),
    }
}

fn make_post(raw_id: &str, title: &str) -> FeedItem {
    FeedItem {
        title: title.to_string(),
        date: None,
        feed: String::new(),
        link: String::new(),
        raw_id: raw_id.to_string(),
    }
}

fn files_of(name_content: &[(&str, &str)]) -> Vec<ShardFile> {
    name_content
        .iter()
        .map(|(n, c)| ShardFile { name: n.to_string(), content: c.to_string() })
        .collect()
}

/// All non-empty lines of a saved table, files in name order.
fn read_lines(files: &[ShardFile]) -> Vec<String> {
    let mut sorted: Vec<&ShardFile> = files.iter().collect();
    sorted.sort_by(|a, b| a.name.cmp(&b.name));
    let mut lines = Vec::new();
    for f in sorted {
        for line in f.content.lines() {
            if !line.trim().is_empty() {
                lines.push(line.to_string());
            }
        }
    }
    lines
}

/// The value of the `id` field of a saved line.
fn id_of_line(line: &str) -> String {
    let marker = "\"id\":\"";
    let start = line.find(marker).expect("line should carry an id") + marker.len();
    let rest = &line[start..];
    let end = rest.find('"').expect("id should be terminated");
    rest[..end].to_string()
}

fn ids_from_lines(lines: &[String]) -> Vec<String> {
    lines.iter().map(|l| id_of_line(l)).collect()
}

/// The change time of the single row of a table.
fn single_updated_at(table: Table<FeedSource>) -> Option<Timestamp> {
    let rows = table.into_rows();
    assert_eq!(rows.len(), 1);
    match &rows[0] {
        Row::Live { updated_at, .. } => *updated_at,
        Row::Tombstone { .. } => None,
    }
}

fn reload(table: &Table<FeedSource>) -> Table<FeedSource> {
    Table::load(&table.save()).unwrap()
}

#[test]
fn test_upsert_hashes_id() {
    let mut table = Table::<FeedSource>::new();
    let item = make_item("raw-id", "Post");
    table.upsert(item.dup());
    assert_eq!(
        table.id_of(&item),
        hash_id(
            "raw-id",
            id_length_for_capacity(FeedSource::expected_capacity())
        )
    );
    assert_eq!(table.items().len(), 1);
}

#[test]
fn test_upsert_overwrites_existing() {
    let mut table = Table::<FeedSource>::new();
    table.upsert(make_item("same-id", "Original"));
    table.upsert(make_item("same-id", "Updated"));
    let items = table.items();
    assert_eq!(items.len(), 1);
    assert_eq!(items[0].title, "Updated");
}

#[test]
fn test_load_save_roundtrip() {
    let mut table = Table::<FeedSource>::new();
    table.upsert(make_item("id-1", "First"));
    table.upsert(make_item("id-2", "Second"));

    let loaded = Table::<FeedSource>::load(&table.save()).unwrap();
    assert_eq!(loaded.items().len(), 2);

    let titles: Vec<String> = loaded.items().iter().map(|i| i.title.clone()).collect();
    assert!(titles.contains(&"First".to_string()));
    assert!(titles.contains(&"Second".to_string()));
}

#[test]
fn test_load_nonexistent_file() {
    let table = Table::<FeedSource>::load(&Vec::new()).unwrap();
    assert_eq!(table.items().len(), 0);
}

#[test]
fn test_save_sorts_items_by_id() {
    let mut table = Table::<FeedSource>::new();
    table.upsert(make_item("zzz", "Last"));
    table.upsert(make_item("aaa", "First"));
    table.upsert(make_item("mmm", "Middle"));

    let ids = ids_from_lines(&read_lines(&table.save()));
    let mut sorted = ids.clone();
    sorted.sort();
    assert_eq!(ids, sorted);
}

#[test]
fn test_save_sort_order_is_stable_across_roundtrips() {
    let mut table = Table::<FeedSource>::new();
    table.upsert(make_item("c", "C"));
    table.upsert(make_item("a", "A"));
    table.upsert(make_item("b", "B"));
    let files1 = table.save();
    let ids1 = ids_from_lines(&read_lines(&files1));

    let loaded = Table::<FeedSource>::load(&files1).unwrap();
    let ids2 = ids_from_lines(&read_lines(&loaded.save()));
    assert_eq!(ids1, ids2);
}

#[test]
fn test_save_sort_order_preserved_after_upsert() {
    let mut table = Table::<FeedSource>::new();
    table.upsert(make_item("b", "B"));
    table.upsert(make_item("a", "A"));

    let mut table = Table::<FeedSource>::load(&table.save()).unwrap();
    table.upsert(make_item("c", "C"));

    let ids = ids_from_lines(&read_lines(&table.save()));
    let mut sorted = ids.clone();
    sorted.sort();
    assert_eq!(ids, sorted);
}

#[test]
fn test_save_single_item_sorted() {
    let mut table = Table::<FeedSource>::new();
    table.upsert(make_item("only", "Only"));
    let ids = ids_from_lines(&read_lines(&table.save()));
    assert_eq!(ids.len(), 1);
}

#[test]
fn test_save_empty_table() {
    let table = Table::<FeedSource>::new();
    let lines = read_lines(&table.save());
    assert!(lines.is_empty());
}

#[test]
fn test_save_is_deterministic_across_insert_orders() {
    // The same logical state saves to byte-identical files, whatever
    // order it was built in.
    let mut a = Table::<FeedSource>::new();
    a.upsert(make_item("alpha", "Alpha"));
    a.upsert(make_item("beta", "Beta"));
    let a = reload(&a);

    let mut b = Table::<FeedSource>::new();
    b.upsert(make_item("beta", "Beta"));
    b.upsert(make_item("alpha", "Alpha"));
    let b = reload(&b);

    // Timestamps differ between the tables, so compare identifiers and
    // file names, which the order must not affect.
    let fa = a.save();
    let fb = b.save();
    let names_a: Vec<&String> = fa.iter().map(|f| &f.name).collect();
    let names_b: Vec<&String> = fb.iter().map(|f| &f.name).collect();
    assert_eq!(names_a, names_b);
    assert_eq!(
        ids_from_lines(&read_lines(&fa)),
        ids_from_lines(&read_lines(&fb))
    );
}

#[test]
fn test_roundtrip_with_sharding_preserves_all_items() {
    let mut table = Table::<FeedItem>::new();
    table.upsert(make_post("alpha", "Alpha"));
    table.upsert(make_post("beta", "Beta"));
    table.upsert(make_post("gamma", "Gamma"));

    let loaded = Table::<FeedItem>::load(&table.save()).unwrap();
    assert_eq!(loaded.items().len(), 3);
    let titles: Vec<String> = loaded.items().iter().map(|i| i.title.clone()).collect();
    assert!(titles.contains(&"Alpha".to_string()));
    assert!(titles.contains(&"Beta".to_string()));
    assert!(titles.contains(&"Gamma".to_string()));
}

#[test]
fn test_upsert_same_id_overwrites() {
    // Two items with the same raw ID should produce the same hash,
    // so the second upsert overwrites the first.
    let mut table = Table::<FeedSource>::new();
    table.upsert(make_item("same", "First"));
    table.upsert(make_item("same", "Second"));
    let items = table.items();
    assert_eq!(items.len(), 1);
    assert_eq!(items[0].title, "Second");
}

#[test]
fn test_upsert_sets_updated_at_on_new_item() {
    let mut table = Table::<FeedSource>::new();
    table.upsert(make_item("new", "New Item"));
    assert!(single_updated_at(table).is_some());
}

#[test]
fn test_upsert_preserves_updated_at_when_unchanged() {
    let mut table = Table::<FeedSource>::new();
    table.upsert(make_item("x", "Same"));
    let ts1 = single_updated_at(reload(&table));

    // Upsert identical content — updated_at should not change
    table.upsert(make_item("x", "Same"));
    let ts2 = single_updated_at(table);
    assert_eq!(ts1, ts2);
}

#[test]
fn test_upsert_updates_updated_at_when_content_changes() {
    let mut table = Table::<FeedSource>::new();
    table.upsert(make_item("x", "Original"));
    let ts1 = single_updated_at(reload(&table));

    table.upsert(make_item("x", "Changed"));
    let ts2 = single_updated_at(table);
    assert_ne!(ts1, ts2);
    let (a, b) = (ts1.unwrap(), ts2.unwrap());
    assert!(a.le(&b) && !b.le(&a), "the change time should advance");
}

#[test]
fn test_updated_at_survives_save_load_roundtrip() {
    let mut table = Table::<FeedSource>::new();
    table.upsert(make_item("x", "Item"));
    let files = table.save();
    let ts = single_updated_at(table);

    let loaded = Table::<FeedSource>::load(&files).unwrap();
    assert_eq!(single_updated_at(loaded), ts);
}

#[test]
fn test_upsert_unchanged_after_roundtrip() {
    let mut table = Table::<FeedSource>::new();
    table.upsert(make_item("x", "Item"));

    let mut loaded = reload(&table);
    let ts_before = single_updated_at(reload(&loaded));

    // Re-upsert same content after loading from disk
    loaded.upsert(make_item("x", "Item"));
    let ts_after = single_updated_at(loaded);
    assert_eq!(ts_before, ts_after);
}

#[test]
fn test_delete_removes_from_items() {
    let mut table = Table::<FeedSource>::new();
    table.upsert(make_item("x", "Item"));
    assert_eq!(table.items().len(), 1);

    table.delete("x");
    assert_eq!(table.items().len(), 0);
}

#[test]
fn test_delete_tombstone_survives_roundtrip() {
    let mut table = Table::<FeedSource>::new();
    table.upsert(make_item("x", "Item"));
    table.delete("x");

    let files = table.save();
    let loaded = Table::<FeedSource>::load(&files).unwrap();
    assert_eq!(loaded.items().len(), 0);
    // The tombstone itself is still on disk, with its deletion time.
    let lines = read_lines(&files);
    assert_eq!(lines.len(), 1);
    assert!(lines[0].contains("\"deleted_at\":\""));
}

#[test]
fn test_upsert_resurrects_deleted_item() {
    let mut table = Table::<FeedSource>::new();
    table.upsert(make_item("x", "Original"));
    table.delete("x");
    assert_eq!(table.items().len(), 0);

    table.upsert(make_item("x", "Resurrected"));
    let items = table.items();
    assert_eq!(items.len(), 1);
    assert_eq!(items[0].title, "Resurrected");
}

#[test]
fn test_upsert_resurrects_after_roundtrip() {
    let mut table = Table::<FeedSource>::new();
    table.upsert(make_item("x", "Original"));
    table.delete("x");

    let mut loaded = reload(&table);
    assert_eq!(loaded.items().len(), 0);

    loaded.upsert(make_item("x", "Back"));
    let items = loaded.items();
    assert_eq!(items.len(), 1);
    assert_eq!(items[0].title, "Back");
}

#[test]
fn test_delete_nonexistent_key_returns_none() {
    let mut table = Table::<FeedSource>::new();
    table.upsert(make_item("a", "Keep"));
    assert!(table.delete("never-added").is_none());
    assert_eq!(table.items().len(), 1);
}

#[test]
fn test_delete_mixed_with_live() {
    let mut table = Table::<FeedSource>::new();
    table.upsert(make_item("a", "Keep"));
    table.upsert(make_item("b", "Delete"));
    table.upsert(make_item("c", "Also Keep"));
    table.delete("b");

    let items = table.items();
    assert_eq!(items.len(), 2);
    let titles: Vec<&str> = items.iter().map(|i| i.title.as_str()).collect();
    assert!(titles.contains(&"Keep"));
    assert!(titles.contains(&"Also Keep"));
    assert!(!titles.contains(&"Delete"));
}

#[test]
fn test_load_truncated_json_returns_error() {
    let files = files_of(&[("items_.jsonl", "{\"id\":\"abc\",\"url\":\"tr\n")]);
    let result = Table::<FeedSource>::load(&files);
    assert!(result.is_err());
    let msg = result.err().unwrap().message();
    assert!(
        msg.contains("items_.jsonl"),
        "error should mention file path, got: {}",
        msg
    );
}

#[test]
fn test_load_completely_invalid_content_returns_error() {
    let files = files_of(&[("items_.jsonl", "not json at all\n")]);
    assert!(Table::<FeedSource>::load(&files).is_err());
}

#[test]
fn test_load_empty_lines_between_valid_entries() {
    let content = "{\"id\":\"aa1111\",\"url\":\"u1\"}\n\n{\"id\":\"bb2222\",\"url\":\"u2\"}\n\n";
    let files = files_of(&[("items_.jsonl", content)]);
    let table = Table::<FeedSource>::load(&files).unwrap();
    assert_eq!(table.items().len(), 2);
}

#[test]
fn test_load_mixed_valid_and_invalid_lines_returns_error() {
    let content = "{\"id\":\"aa1111\",\"url\":\"u1\"}\ncorrupted line\n";
    let files = files_of(&[("items_.jsonl", content)]);
    assert!(Table::<FeedSource>::load(&files).is_err());
}

#[test]
fn test_load_extra_unknown_fields_ignored() {
    let content =
        "{\"id\":\"aa1111\",\"url\":\"https://x\",\"extra_field\":\"should be ignored\",\"another\":42,\"flag\":true,\"gone\":null}\n";
    let files = files_of(&[("items_.jsonl", content)]);
    let table = Table::<FeedSource>::load(&files).unwrap();
    assert_eq!(table.items().len(), 1);
    assert_eq!(table.items()[0].url, "https://x");
}

#[test]
fn test_load_reads_from_multiple_shard_files() {
    let files = files_of(&[
        ("items_a.jsonl", "{\"id\":\"aa1111\",\"title\":\"From AA\",\"feed\":\"\"}\n"),
        ("items_b.jsonl", "{\"id\":\"bb2222\",\"title\":\"From BB\",\"feed\":\"\"}\n"),
    ]);
    let table = Table::<FeedItem>::load(&files).unwrap();
    assert_eq!(table.items().len(), 2);
    let titles: Vec<String> = table.items().iter().map(|i| i.title.clone()).collect();
    assert!(titles.contains(&"From AA".to_string()));
    assert!(titles.contains(&"From BB".to_string()));
}

#[test]
fn test_load_ignores_unrelated_files() {
    let files = files_of(&[
        ("items_.jsonl", "{\"id\":\"aa1111\",\"url\":\"u1\"}\n"),
        (".lock", "junk"),
        ("notes.txt", "also junk"),
        ("items_.jsonl.tmp", "{\"id\":\"zz\",\"url\":\"left over\"}\n"),
    ]);
    let table = Table::<FeedSource>::load(&files).unwrap();
    assert_eq!(table.items().len(), 1);
}

#[test]
fn test_shard_file_names_follow_id_prefixes() {
    let mut table = Table::<FeedItem>::new();
    table.upsert(make_post("alpha", "Alpha"));
    table.upsert(make_post("beta", "Beta"));
    let id_len = id_length_for_capacity(FeedItem::expected_capacity());
    let files = table.save();
    for item in table.items() {
        let id = hash_id(&item.raw_id, id_len);
        let expected = format!("items_{}.jsonl", &id[..1]);
        assert!(
            files.iter().any(|f| f.name == expected),
            "no shard file named {}",
            expected
        );
    }
}

#[test]
fn test_date_survives_roundtrip() {
    let mut table = Table::<FeedItem>::new();
    let mut post = make_post("dated", "Dated");
    post.date = Some(Timestamp { secs: 1_705_312_800, nanos: 0 });
    table.upsert(post);

    let files = table.save();
    // The date is rendered as RFC 3339, not stored as raw numbers.
    let lines = read_lines(&files);
    assert!(lines[0].contains("\"date\":\"2024-01-15T10:00:00Z\""));

    let loaded = Table::<FeedItem>::load(&files).unwrap();
    assert_eq!(
        loaded.items()[0].date,
        Some(Timestamp { secs: 1_705_312_800, nanos: 0 })
    );
}

#[test]
fn test_parse_rows_deduplicates_later_wins() {
    let content = "{\"id\":\"aa\",\"url\":\"first\"}\n{\"id\":\"aa\",\"url\":\"second\"}\n";
    let rows = blogtato::table::parse_rows::<FeedSource>(content).unwrap();
    assert_eq!(rows.len(), 1);
    match &rows[0] {
        Row::Live { inner, .. } => assert_eq!(inner.url, "second"),
        Row::Tombstone { .. } => panic!("expected a live row"),
    }
    assert!(blogtato::table::parse_rows::<FeedSource>("not json\n").is_none());
}
