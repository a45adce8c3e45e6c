use demoday_enrich::store::{check_collection, merge_new, merge_scanned, Corruption, DedupIndex};
use demoday_enrich::submission::{Submission, EMBEDDING_DIM};

fn rec(title: &str, url: &str) -> Submission {
    Submission::new(
        title.to_string(),
        format!("about {title}"),
        "tools".to_string(),
        url.to_string(),
        "https://example.com/social".to_string(),
    )
}

fn copies(c: &[Submission]) -> Vec<Submission> {
    c.iter().map(|s| s.duplicate()).collect()
}

fn urls(c: &[Submission]) -> Vec<String> {
    c.iter().map(|s| s.youtube_url.clone()).collect()
}

fn embedding(len: usize) -> Vec<u32> {
    vec![0.125f32.to_bits(); len]
}

#[test]
fn merge_with_itself_changes_nothing() {
    let mut s = vec![rec("A", "u1"), rec("B", "u2"), rec("C", "u3")];
    let again = copies(&s);
    let added = merge_new(&mut s, &again);
    assert_eq!(added, 0);
    assert_eq!(urls(&s), vec!["u1", "u2", "u3"]);
    assert_eq!(s[1].title, "B");
}

#[test]
fn merge_of_equal_keys_keeps_one() {
    let mut s = vec![rec("A", "u1")];
    assert_eq!(merge_new(&mut s, &vec![rec("first", "u9")]), 1);
    assert_eq!(merge_new(&mut s, &vec![rec("second", "u9")]), 0);
    assert_eq!(urls(&s), vec!["u1", "u9"]);
    assert_eq!(s[1].title, "first");
}

#[test]
fn merge_appends_new_records_in_order() {
    let mut s = vec![rec("A", "u1"), rec("B", "u2")];
    let incoming = vec![rec("D", "u4"), rec("B again", "u2"), rec("C", "u3"), rec("D again", "u4")];
    let added = merge_new(&mut s, &incoming);
    assert_eq!(added, 2);
    assert_eq!(urls(&s), vec!["u1", "u2", "u4", "u3"]);
    assert_eq!(s[2].title, "D");
}

#[test]
fn merge_into_empty_store() {
    let mut s: Vec<Submission> = Vec::new();
    assert_eq!(merge_new(&mut s, &Vec::new()), 0);
    assert!(s.is_empty());
    assert_eq!(merge_new(&mut s, &vec![rec("A", "u1")]), 1);
    assert_eq!(urls(&s), vec!["u1"]);
}

#[test]
fn scanned_records_without_link_are_dropped() {
    let mut s = vec![rec("A", "u1")];
    let scanned = vec![rec("no link", ""), rec("B", "u2"), rec("A dup", "u1")];
    let added = merge_scanned(&mut s, &scanned);
    assert_eq!(added, 1);
    assert_eq!(urls(&s), vec!["u1", "u2"]);
}

#[test]
fn index_tracks_keys() {
    let s = vec![rec("A", "u1"), rec("B", "u2")];
    let mut idx = DedupIndex::build(&s);
    assert!(idx.contains("u1"));
    assert!(!idx.contains("u3"));
    idx.insert("u3".to_string());
    assert!(idx.contains("u3"));
}

#[test]
fn valid_collection_passes_check() {
    let mut a = rec("A", "u1");
    a.youtube_transcript = Some("hello".to_string());
    a.embedding = Some(embedding(EMBEDDING_DIM));
    let c = vec![a, rec("B", "u2")];
    assert_eq!(check_collection(&c), Ok(()));
    assert_eq!(check_collection(&Vec::new()), Ok(()));
}

#[test]
fn duplicate_key_is_corruption() {
    let c = vec![rec("A", "u1"), rec("B", "u1")];
    assert_eq!(check_collection(&c), Err(Corruption::DuplicateKey));
}

#[test]
fn embedding_without_transcript_is_corruption() {
    let mut a = rec("A", "u1");
    a.embedding = Some(embedding(EMBEDDING_DIM));
    assert_eq!(check_collection(&vec![a]), Err(Corruption::EmbeddingWithoutTranscript));
}

#[test]
fn wrong_embedding_length_is_corruption() {
    let mut a = rec("A", "u1");
    a.youtube_transcript = Some("hello".to_string());
    a.embedding = Some(embedding(EMBEDDING_DIM - 1));
    assert_eq!(check_collection(&vec![a]), Err(Corruption::WrongEmbeddingLength));
}

#[test]
fn record_validity_and_enrichment() {
    let mut a = rec("A", "u1");
    assert!(a.is_valid());
    assert!(!a.is_enriched());
    a.youtube_transcript = Some("t".to_string());
    a.embedding = Some(embedding(EMBEDDING_DIM));
    assert!(a.is_valid());
    assert!(a.is_enriched());
    assert_eq!(a.key(), "u1");
    let b = a.duplicate();
    assert_eq!(b.embedding.as_ref().map(|e| e.len()), Some(1536));
    assert_eq!(b.youtube_transcript.as_deref(), Some("t"));
}
