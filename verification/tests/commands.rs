//! The command layer's pure helpers: clone URL expansion, grouping
//! arguments, and shorthand encoding.

use blogtato::commands::expand_url;
use blogtato::commands::parse_grouping;
use blogtato::commands::GroupKey;
use blogtato::shorthand::compute_shorthands;
use blogtato::shorthand::hex_to_base9;
use blogtato::shorthand::index_to_shorthand;

#[test]
fn test_expand_shorthand() {
    assert_eq!(
        expand_url("foolorem/newsbar"),
        "git@github.com:foolorem/newsbar.git"
    );
}

#[test]
fn test_expand_preserves_full_urls() {
    assert_eq!(
        expand_url("https://github.com/user/repo.git"),
        "https://github.com/user/repo.git"
    );
    assert_eq!(
        expand_url("git@github.com:user/repo.git"),
        "git@github.com:user/repo.git"
    );
}

#[test]
fn test_expand_preserves_relative_paths() {
    assert_eq!(expand_url("./local/repo"), "./local/repo");
}

#[test]
fn test_expand_preserves_bare_name() {
    assert_eq!(expand_url("something"), "something");
}

#[test]
fn mod_test_hex_to_base9() {
    // "0" in hex = 0 in decimal = 0 in base9 = "a"
    assert_eq!(hex_to_base9("0"), "a");
    // "9" in hex = 9 in decimal = 10 in base9 = "sa"
    assert_eq!(hex_to_base9("9"), "sa");
    // "ff" in hex = 255 in decimal = 313 in base9 = "fsf"
    assert_eq!(hex_to_base9("ff"), "fsf");
    // "1" in hex = 1 in decimal = 1 in base9 = "s"
    assert_eq!(hex_to_base9("1"), "s");
    // "a" in hex = 10 in decimal = 11 in base9 = "ss"
    assert_eq!(hex_to_base9("a"), "ss");
}

#[test]
fn mod_test_compute_shorthands_unique_prefixes() {
    // Two IDs that differ at the first base9 digit should get 1-char shorthands
    let ids = vec!["00".to_string(), "ff".to_string()];
    let shorthands = compute_shorthands(&ids);
    assert_eq!(shorthands.len(), 2);
    assert!(shorthands.iter().all(|s| s.len() == 1));
    assert_ne!(shorthands[0], shorthands[1]);

    // Two IDs that share a base9 prefix should get longer shorthands
    let ids2 = vec!["aa".to_string(), "ab".to_string()];
    let shorthands2 = compute_shorthands(&ids2);
    assert_eq!(shorthands2.len(), 2);
    assert_ne!(shorthands2[0], shorthands2[1]);
    // They should be longer than 1 since they share a prefix in base9
    assert!(
        shorthands2[0].len() > 1
            || shorthands2[1].len() > 1
            || shorthands2[0] != shorthands2[1]
    );
}

#[test]
fn mod_test_compute_shorthands_single() {
    let ids = vec!["abcdef".to_string()];
    let shorthands = compute_shorthands(&ids);
    assert_eq!(shorthands.len(), 1);
    assert_eq!(shorthands[0].len(), 1);
}

#[test]
fn mod_test_compute_shorthands_empty() {
    let ids: Vec<String> = vec![];
    let shorthands = compute_shorthands(&ids);
    assert!(shorthands.is_empty());
}

#[test]
fn mod_test_index_to_shorthand() {
    // Index 0 → first char
    assert_eq!(index_to_shorthand(0), "a");
    // Index 1 → second char
    assert_eq!(index_to_shorthand(1), "s");
    // Index 33 → last single char of the post alphabet
    assert_eq!(index_to_shorthand(33), "m");
    // Index 34 → wraps to two chars: 34/34=1 rem 0 → "sa"
    assert_eq!(index_to_shorthand(34), "sa");
    // All output characters should be valid post-alphabet chars
    let alphabet = "asdfghjklASDFGHJKLqwertyiopzxcvbnm";
    for i in 0..200 {
        let sh = index_to_shorthand(i);
        assert!(sh.chars().all(|c| alphabet.contains(c)));
    }
}

#[test]
fn mod_test_index_to_shorthand_ordering() {
    // Lower indices produce shorter or lexicographically earlier shorthands
    let sh0 = index_to_shorthand(0);
    let sh33 = index_to_shorthand(33);
    let sh34 = index_to_shorthand(34);
    assert_eq!(sh0.len(), 1);
    assert_eq!(sh33.len(), 1);
    assert_eq!(sh34.len(), 2);
}

#[test]
fn main_test_hex_to_base9() {
    assert_eq!(hex_to_base9("0"), "a");
    assert_eq!(hex_to_base9("9"), "sa");
    assert_eq!(hex_to_base9("ff"), "fsf");
    assert_eq!(hex_to_base9("1"), "s");
    assert_eq!(hex_to_base9("a"), "ss");
}

#[test]
fn main_test_compute_shorthands_unique_prefixes() {
    let ids = vec!["00".to_string(), "ff".to_string()];
    let shorthands = compute_shorthands(&ids);
    assert_eq!(shorthands.len(), 2);
    assert!(shorthands.iter().all(|s| s.len() == 1));
    assert_ne!(shorthands[0], shorthands[1]);

    let ids2 = vec!["aa".to_string(), "ab".to_string()];
    let shorthands2 = compute_shorthands(&ids2);
    assert_eq!(shorthands2.len(), 2);
    assert_ne!(shorthands2[0], shorthands2[1]);
    assert!(
        shorthands2[0].len() > 1
            || shorthands2[1].len() > 1
            || shorthands2[0] != shorthands2[1]
    );
}

#[test]
fn main_test_compute_shorthands_single() {
    let ids = vec!["abcdef".to_string()];
    let shorthands = compute_shorthands(&ids);
    assert_eq!(shorthands.len(), 1);
    assert_eq!(shorthands[0].len(), 1);
}

#[test]
fn main_test_compute_shorthands_empty() {
    let ids: Vec<String> = vec![];
    let shorthands = compute_shorthands(&ids);
    assert!(shorthands.is_empty());
}

#[test]
fn main_test_index_to_shorthand() {
    assert_eq!(index_to_shorthand(0), "a");
    assert_eq!(index_to_shorthand(1), "s");
    assert_eq!(index_to_shorthand(33), "m");
    assert_eq!(index_to_shorthand(34), "sa");
    let alphabet = "asdfghjklASDFGHJKLqwertyiopzxcvbnm";
    for i in 0..200 {
        let sh = index_to_shorthand(i);
        assert!(sh.chars().all(|c| alphabet.contains(c)));
    }
}

#[test]
fn main_test_index_to_shorthand_ordering() {
    let sh0 = index_to_shorthand(0);
    let sh33 = index_to_shorthand(33);
    let sh34 = index_to_shorthand(34);
    assert_eq!(sh0.len(), 1);
    assert_eq!(sh33.len(), 1);
    assert_eq!(sh34.len(), 2);
}

#[test]
fn show_test_parse_grouping_empty() {
    assert_eq!(parse_grouping(""), Some(vec![]));
}

#[test]
fn show_test_parse_grouping_date() {
    assert_eq!(parse_grouping("d"), Some(vec![GroupKey::Date]));
}

#[test]
fn show_test_parse_grouping_feed() {
    assert_eq!(parse_grouping("f"), Some(vec![GroupKey::Feed]));
}

#[test]
fn show_test_parse_grouping_date_feed() {
    assert_eq!(
        parse_grouping("df"),
        Some(vec![GroupKey::Date, GroupKey::Feed])
    );
}

#[test]
fn show_test_parse_grouping_feed_date() {
    assert_eq!(
        parse_grouping("fd"),
        Some(vec![GroupKey::Feed, GroupKey::Date])
    );
}

#[test]
fn show_test_parse_grouping_invalid() {
    assert_eq!(parse_grouping("x"), None);
}

#[test]
fn show_test_parse_grouping_partially_invalid() {
    assert_eq!(parse_grouping("dx"), None);
}

#[test]
fn main_test_parse_grouping_empty() {
    assert_eq!(parse_grouping(""), Some(vec![]));
}

#[test]
fn main_test_parse_grouping_date() {
    assert_eq!(parse_grouping("d"), Some(vec![GroupKey::Date]));
}

#[test]
fn main_test_parse_grouping_feed() {
    assert_eq!(parse_grouping("f"), Some(vec![GroupKey::Feed]));
}

#[test]
fn main_test_parse_grouping_date_feed() {
    assert_eq!(
        parse_grouping("df"),
        Some(vec![GroupKey::Date, GroupKey::Feed])
    );
}

#[test]
fn main_test_parse_grouping_feed_date() {
    assert_eq!(
        parse_grouping("fd"),
        Some(vec![GroupKey::Feed, GroupKey::Date])
    );
}

#[test]
fn main_test_parse_grouping_invalid() {
    assert_eq!(parse_grouping("x"), None);
}

#[test]
fn main_test_parse_grouping_partially_invalid() {
    assert_eq!(parse_grouping("dx"), None);
}

#[test]
fn test_parse_show_args_grouping_and_filter() {
    let args = vec!["df".to_string(), "@sh".to_string()];
    let (group, filter) = blogtato::commands::parse_show_args(&args).unwrap();
    assert_eq!(group, "df");
    assert_eq!(filter.as_deref(), Some("@sh"));
}

#[test]
fn test_parse_show_args_rejects_two_groupings() {
    let args = vec!["d".to_string(), "f".to_string()];
    assert!(blogtato::commands::parse_show_args(&args).is_none());
}
