use talecast::ledger::{format_record, id_recordable, title_recordable, DownloadedEpisodes};

fn reload(bytes: Vec<u8>) -> DownloadedEpisodes {
    let content = String::from_utf8(bytes).unwrap();
    DownloadedEpisodes::load(Some(&content))
}

#[test]
fn missing_ledger_is_empty() {
    let ledger = DownloadedEpisodes::load(None);
    assert!(!ledger.contains_episode("ep1"));
    assert!(!ledger.contains_episode(""));
}

#[test]
fn empty_file_is_empty() {
    let ledger = DownloadedEpisodes::load(Some(""));
    assert!(!ledger.contains_episode("ep1"));
}

#[test]
fn round_trip_single_entry() {
    let rec = format_record("ep1", 1700000000, "Hello");
    let ledger = reload(rec);
    assert!(ledger.contains_episode("ep1"));
    assert!(!ledger.contains_episode("ep2"));
    assert!(!ledger.contains_episode("Hello"));
}

#[test]
fn append_then_reload() {
    let mut ledger = DownloadedEpisodes::new();
    let rec = ledger.append("ep1", 1700000000, "Hello");
    assert!(rec.is_some());
    assert!(ledger.contains_episode("ep1"));
    let reloaded = reload(rec.unwrap());
    assert!(reloaded.contains_episode("ep1"));
}

#[test]
fn append_duplicate_returns_none() {
    let mut ledger = DownloadedEpisodes::new();
    assert!(ledger.append("ep1", 10, "a").is_some());
    assert!(ledger.append("ep1", 11, "b").is_none());
    assert!(ledger.append("ep2", 12, "c").is_some());
}

#[test]
fn format_record_exact_bytes() {
    let rec = format_record("ep1", 5, "Hello");
    assert_eq!(rec, b"ep1 5 \"Hello\"\n".to_vec());
}

#[test]
fn format_record_zero_timestamp() {
    let rec = format_record("x", 0, "");
    assert_eq!(rec, b"x 0 \"\"\n".to_vec());
}

#[test]
fn format_record_large_timestamp() {
    let rec = format_record("id", 1234567890, "t");
    assert_eq!(rec, b"id 1234567890 \"t\"\n".to_vec());
}

#[test]
fn format_record_maximal_timestamp() {
    let rec = format_record("id", u64::MAX, "t");
    assert_eq!(rec, b"id 18446744073709551615 \"t\"\n".to_vec());
}

#[test]
fn load_takes_first_token_of_each_line() {
    let content = "a 1 \"x\"\nb 2 \"y\"\n";
    let ledger = DownloadedEpisodes::load(Some(content));
    assert!(ledger.contains_episode("a"));
    assert!(ledger.contains_episode("b"));
    assert!(!ledger.contains_episode("1"));
    assert!(!ledger.contains_episode("x"));
}

#[test]
fn load_ignores_blank_lines_and_leading_whitespace() {
    let content = "\n   \n\tid1 rest of line\n\n";
    let ledger = DownloadedEpisodes::load(Some(content));
    assert!(ledger.contains_episode("id1"));
    assert!(!ledger.contains_episode(""));
}

#[test]
fn load_without_trailing_newline() {
    let content = "a 1 \"x\"\nb 2 \"y\"";
    let ledger = DownloadedEpisodes::load(Some(content));
    assert!(ledger.contains_episode("a"));
    assert!(ledger.contains_episode("b"));
}

#[test]
fn load_with_crlf_line_endings() {
    let content = "a 1 \"x\"\r\nb 2 \"y\"\r\n";
    let ledger = DownloadedEpisodes::load(Some(content));
    assert!(ledger.contains_episode("a"));
    assert!(ledger.contains_episode("b"));
}

#[test]
fn load_duplicate_ids() {
    let content = "a 1 \"x\"\na 2 \"y\"\n";
    let ledger = DownloadedEpisodes::load(Some(content));
    assert!(ledger.contains_episode("a"));
}

#[test]
fn title_with_embedded_quotes_is_benign() {
    // The title is not escaped against embedded quotes; only the first
    // token of a line is load-significant, so reloading still works.
    let rec = format_record("ep1", 7, "He said \"hi\"");
    assert_eq!(rec, b"ep1 7 \"He said \"hi\"\"\n".to_vec());
    let ledger = reload(rec);
    assert!(ledger.contains_episode("ep1"));
    assert!(!ledger.contains_episode("He"));
}

#[test]
fn two_appends_round_trip() {
    let mut ledger = DownloadedEpisodes::new();
    let mut bytes = ledger.append("ep1", 1, "one").unwrap();
    bytes.extend(ledger.append("ep2", 2, "two").unwrap());
    let reloaded = reload(bytes);
    assert!(reloaded.contains_episode("ep1"));
    assert!(reloaded.contains_episode("ep2"));
    assert!(!reloaded.contains_episode("ep3"));
}

#[test]
fn mark_handled_is_in_memory_only() {
    let mut ledger = DownloadedEpisodes::new();
    ledger.mark_handled("ep1");
    assert!(ledger.contains_episode("ep1"));
    assert!(ledger.append("ep1", 3, "t").is_none());
}

#[test]
fn id_recordable_rules() {
    assert!(id_recordable("abc"));
    assert!(id_recordable("https://example.org/ep?guid=1"));
    assert!(!id_recordable(""));
    assert!(!id_recordable("a b"));
    assert!(!id_recordable("a\tb"));
    assert!(!id_recordable("a\nb"));
    assert!(!id_recordable("a\rb"));
}

#[test]
fn title_recordable_rules() {
    assert!(title_recordable(""));
    assert!(title_recordable("He said \"hi\""));
    assert!(title_recordable("spaces are fine"));
    assert!(!title_recordable("line\nbreak"));
}

#[test]
fn unicode_id_round_trips() {
    let mut ledger = DownloadedEpisodes::new();
    let rec = ledger.append("épisode-42", 9, "tïtle").unwrap();
    let reloaded = reload(rec);
    assert!(reloaded.contains_episode("épisode-42"));
    assert!(!reloaded.contains_episode("episode-42"));
}
