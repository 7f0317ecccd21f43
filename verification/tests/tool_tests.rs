use minikv::balancer::RoundRobinLoadBalancer;
use minikv::cutter::{select_fields, split_by_char, split_words};
use minikv::githash::{calc_content_sha1, calc_hash_object, GitFile};
use minikv::grepper::find_match;
use minikv::json::Json;
use minikv::textstat::{count_bytes, count_chars, count_lines, count_words};
use minikv::uniq::unique_words;

#[test]
fn git_file_layout() {
    let files = GitFile::new();
    let names: Vec<&str> = files.iter().map(|f| f.name).collect();
    assert_eq!(
        names,
        vec!["HEAD", "config", "description", "hooks", "info", "objects", "refs"]
    );
    let dirs: Vec<bool> = files.iter().map(|f| f.is_dir).collect();
    assert_eq!(dirs, vec![false, false, false, true, true, true, true]);
}

#[test]
fn sha1_of_known_texts() {
    assert_eq!(
        calc_content_sha1(String::new()),
        "da39a3ee5e6b4b0d3255bfef95601890afd80709"
    );
    assert_eq!(
        calc_content_sha1("abc".to_string()),
        "a9993e364706816aba3e25717850c26c9cd0d89d"
    );
}

#[test]
fn blob_hash_of_known_content() {
    assert_eq!(
        calc_hash_object("hello\n".to_string()),
        "ce013625030ba8dba906f756967f9e9ca394464a"
    );
}

#[test]
fn find_match_plain() {
    let (lines, found) = find_match(
        &"lo".to_string(),
        &"notes.txt".to_string(),
        &"hello world\nfoo".to_string(),
        false,
    )
    .unwrap();
    assert!(found);
    assert_eq!(lines, vec!["hello world".to_string()]);
}

#[test]
fn find_match_recursive_prefixes_path() {
    let (lines, found) = find_match(
        &"lo".to_string(),
        &"notes.txt".to_string(),
        &"hello world\nfoo".to_string(),
        true,
    )
    .unwrap();
    assert!(found);
    assert_eq!(lines, vec!["notes.txt:hello world".to_string()]);
}

#[test]
fn find_match_without_hits() {
    let (lines, found) = find_match(
        &"zz".to_string(),
        &"notes.txt".to_string(),
        &"hello world".to_string(),
        false,
    )
    .unwrap();
    assert!(!found);
    assert!(lines.is_empty());
}

#[test]
fn find_match_rejects_broken_pattern() {
    let r = find_match(
        &"(".to_string(),
        &"notes.txt".to_string(),
        &"hello".to_string(),
        false,
    );
    assert!(r.is_none());
}

#[test]
fn round_robin_cycles_through_servers() {
    let servers = vec![
        "127.0.0.1:8080".to_string(),
        "127.0.0.1:8081".to_string(),
        "127.0.0.1:8082".to_string(),
    ];
    let mut lb = RoundRobinLoadBalancer::new(servers);
    assert_eq!(lb.next_server(), "127.0.0.1:8080");
    assert_eq!(lb.next_server(), "127.0.0.1:8081");
    assert_eq!(lb.next_server(), "127.0.0.1:8082");
    assert_eq!(lb.next_server(), "127.0.0.1:8080");
}

#[test]
fn json_accepts_balanced_text() {
    let mut p = Json::new();
    assert!(p.parse("{\"a\":1}".to_string()));
    let mut p = Json::new();
    assert!(p.parse("[1,2]".to_string()));
}

#[test]
fn json_rejects_unbalanced_or_empty_text() {
    let mut p = Json::new();
    assert!(!p.parse("{".to_string()));
    let mut p = Json::new();
    assert!(!p.parse(String::new()));
    let mut p = Json::new();
    assert!(!p.parse("\"unterminated".to_string()));
}

#[test]
fn word_and_line_counts() {
    assert_eq!(count_words("Hello World"), 2);
    assert_eq!(count_words("  spaced   out  "), 2);
    assert_eq!(count_words(""), 0);
    assert_eq!(count_lines(""), 0);
    assert_eq!(count_lines("a\nb"), 2);
    assert_eq!(count_lines("a\n"), 1);
    assert_eq!(count_chars("héllo"), 5);
    assert_eq!(count_bytes("héllo"), 6);
}

#[test]
fn cut_fields_by_delimiter() {
    let parts = split_by_char("a,b,,d", ',');
    assert_eq!(parts, vec!["a", "b", "", "d"]);
    let joined = select_fields(&parts, &vec![1, 3, 4], &",".to_string()).unwrap();
    assert_eq!(joined, "a,,d,");
    assert!(select_fields(&parts, &vec![5], &",".to_string()).is_none());
    assert!(select_fields(&parts, &vec![0], &",".to_string()).is_none());
    let words = split_words("  one\ttwo  three ");
    assert_eq!(words, vec!["one", "two", "three"]);
}

#[test]
fn unique_words_drops_repeats() {
    let words = vec![
        "apple".to_string(),
        "banana".to_string(),
        "apple".to_string(),
        "cherry".to_string(),
        "banana".to_string(),
    ];
    let out = unique_words(words);
    assert_eq!(out, vec!["apple", "banana", "cherry"]);
}
