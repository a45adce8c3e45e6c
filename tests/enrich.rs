use demoday_enrich::enrich::{ItemPipeline, Media, Request, SkipReason, Stage};
use demoday_enrich::submission::{Submission, EMBEDDING_DIM};

fn rec(title: &str, url: &str) -> Submission {
    Submission::new(title.to_string(), String::new(), String::new(), url.to_string(), String::new())
}

fn media(url: &str) -> Media {
    Media { locator: format!("audio:{url}"), content_type: "audio/webm".to_string() }
}

fn vector(len: usize) -> Vec<u32> {
    vec![(-0.5f32).to_bits(); len]
}

#[test]
fn steps_run_in_order_and_succeed() {
    let mut p = ItemPipeline::start(rec("A", "u1"));
    match p.request() {
        Request::ResolveMedia(url) => assert_eq!(url, "u1"),
        _ => panic!("expected resolve"),
    }
    p.media_resolved(Some(media("u1")));
    match p.request() {
        Request::Transcribe(m) => {
            assert_eq!(m.locator, "audio:u1");
            assert_eq!(m.content_type, "audio/webm");
        }
        _ => panic!("expected transcribe"),
    }
    p.transcribed(Some("hello world".to_string()));
    match p.request() {
        Request::Embed(t) => assert_eq!(t, "hello world"),
        _ => panic!("expected embed"),
    }
    p.embedded(Some(vector(EMBEDDING_DIM)));
    assert!(matches!(p.request(), Request::Done));
    let s = p.outcome().unwrap().unwrap();
    assert_eq!(s.youtube_url, "u1");
    assert_eq!(s.title, "A");
    assert_eq!(s.youtube_transcript.as_deref(), Some("hello world"));
    let e = s.embedding.unwrap();
    assert_eq!(e.len(), 1536);
    assert_eq!(f32::from_bits(e[0]), -0.5);
}

#[test]
fn resolver_failure_skips_unresolvable() {
    let mut p = ItemPipeline::start(rec("A", "u1"));
    p.media_resolved(None);
    assert!(matches!(p.request(), Request::Done));
    assert_eq!(p.outcome().unwrap().err(), Some(SkipReason::Unresolvable));
}

#[test]
fn transcriber_failure_and_empty_transcript_skip() {
    let mut p = ItemPipeline::start(rec("A", "u1"));
    p.media_resolved(Some(media("u1")));
    p.transcribed(None);
    assert_eq!(p.outcome().unwrap().err(), Some(SkipReason::TranscriptionFailed));

    let mut q = ItemPipeline::start(rec("B", "u2"));
    q.media_resolved(Some(media("u2")));
    q.transcribed(Some(String::new()));
    assert_eq!(q.outcome().unwrap().err(), Some(SkipReason::TranscriptionFailed));
}

#[test]
fn embedder_failure_skips() {
    let mut p = ItemPipeline::start(rec("A", "u1"));
    p.media_resolved(Some(media("u1")));
    p.transcribed(Some("text".to_string()));
    p.embedded(None);
    assert_eq!(p.outcome().unwrap().err(), Some(SkipReason::EmbeddingFailed));
}

#[test]
fn wrong_vector_length_is_refused() {
    let mut p = ItemPipeline::start(rec("A", "u1"));
    p.media_resolved(Some(media("u1")));
    p.transcribed(Some("text".to_string()));
    p.embedded(Some(vector(1535)));
    assert_eq!(p.outcome().unwrap().err(), Some(SkipReason::VectorLengthMismatch));

    let mut q = ItemPipeline::start(rec("B", "u2"));
    q.media_resolved(Some(media("u2")));
    q.transcribed(Some("text".to_string()));
    q.embedded(Some(vector(1537)));
    assert_eq!(q.outcome().unwrap().err(), Some(SkipReason::VectorLengthMismatch));
}

#[test]
fn replies_out_of_turn_are_ignored() {
    let mut p = ItemPipeline::start(rec("A", "u1"));
    p.transcribed(Some("early".to_string()));
    p.embedded(Some(vector(EMBEDDING_DIM)));
    assert!(matches!(p.stage, Stage::Resolving));
    assert!(p.outcome().is_none());
}
