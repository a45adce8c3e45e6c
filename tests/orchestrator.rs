use demoday_enrich::enrich::{ItemPipeline, Media, Request, SkipReason};
use demoday_enrich::orchestrator::{backlog, Config, Orchestrator, PassOutcome, Step};
use demoday_enrich::pool::BatchRun;
use demoday_enrich::store::Corruption;
use demoday_enrich::submission::{Submission, EMBEDDING_DIM};
use std::cell::Cell;

fn rec(title: &str, url: &str) -> Submission {
    Submission::new(title.to_string(), String::new(), String::new(), url.to_string(), String::new())
}

fn raw_store(n: usize) -> Vec<Submission> {
    (0..n).map(|i| rec(&format!("T{i}"), &format!("u{i}"))).collect()
}

fn copies(c: &[Submission]) -> Vec<Submission> {
    c.iter().map(|s| s.duplicate()).collect()
}

fn urls(c: &[Submission]) -> Vec<String> {
    c.iter().map(|s| s.youtube_url.clone()).collect()
}

/// Stub collaborators: the resolver fails for the URLs in `failing`; the
/// transcriber and embedder always succeed.
struct Stubs<'a> {
    failing: &'a [&'a str],
    live: Cell<usize>,
    peak: Cell<usize>,
    resolves: Cell<usize>,
}

impl<'a> Stubs<'a> {
    fn new(failing: &'a [&'a str]) -> Self {
        Stubs { failing, live: Cell::new(0), peak: Cell::new(0), resolves: Cell::new(0) }
    }

    fn enrich(&self, s: Submission) -> Result<Submission, SkipReason> {
        let mut p = ItemPipeline::start(s);
        loop {
            match p.request() {
                Request::ResolveMedia(url) => {
                    self.resolves.set(self.resolves.get() + 1);
                    let ok = !self.failing.contains(&url.as_str());
                    p.media_resolved(if ok {
                        Some(Media { locator: url.clone(), content_type: "audio/webm".to_string() })
                    } else {
                        None
                    });
                }
                Request::Transcribe(m) => p.transcribed(Some(format!("said in {}", m.locator))),
                Request::Embed(_) => p.embedded(Some(vec![1.0f32.to_bits(); EMBEDDING_DIM])),
                Request::Done => break,
            }
        }
        p.outcome().unwrap()
    }

    /// Runs one batch through a worker pool, starting items while slots are free
    /// and completing the oldest, and probing how many are in flight.
    fn run_batch(&self, items: Vec<Submission>, limit: usize) -> Vec<Result<Submission, SkipReason>> {
        let mut run = BatchRun::new(items, limit);
        let mut running: Vec<(usize, Submission)> = Vec::new();
        loop {
            while let Some(job) = run.try_dispatch() {
                running.push(job);
                self.live.set(self.live.get() + 1);
                self.peak.set(self.peak.get().max(self.live.get()));
            }
            if running.is_empty() {
                break;
            }
            let (slot, s) = running.remove(0);
            let outcome = self.enrich(s);
            self.live.set(self.live.get() - 1);
            run.complete(slot, outcome);
        }
        assert!(run.is_joined());
        run.into_outcomes()
    }

    /// Runs one pass; each absorbed batch is followed by a checkpoint copy.
    fn pass(&self, o: &mut Orchestrator, checkpoints: &mut Vec<Vec<Submission>>) -> PassOutcome {
        loop {
            match o.next_step() {
                Step::Batch(items) => {
                    let outcomes = self.run_batch(items, o.concurrency());
                    o.absorb(outcomes);
                    checkpoints.push(copies(o.enriched()));
                }
                Step::Finished(outcome) => return outcome,
            }
        }
    }
}

#[test]
fn example_scenario_one_pass() {
    let raw = vec![rec("A", "u1"), rec("B", "u2")];
    let config = Config::new(2, 2, None).unwrap();
    let mut o = Orchestrator::new(raw, Vec::new(), config).unwrap();
    let stubs = Stubs::new(&["u2"]);
    let mut cps = Vec::new();
    let outcome = stubs.pass(&mut o, &mut cps);
    assert_eq!(outcome, PassOutcome::Progress);
    let enriched = o.enriched();
    assert_eq!(enriched.len(), 1);
    assert_eq!(enriched[0].title, "A");
    assert!(enriched[0].youtube_transcript.is_some());
    assert_eq!(enriched[0].embedding.as_ref().unwrap().len(), 1536);
    assert_eq!(urls(&o.remaining()), vec!["u2"]);
    assert_eq!(cps.len(), 1);
}

#[test]
fn second_pass_without_progress_stalls() {
    let raw = vec![rec("A", "u1"), rec("B", "u2")];
    let mut o = Orchestrator::new(raw, Vec::new(), Config::new(2, 2, None).unwrap()).unwrap();
    let stubs = Stubs::new(&["u2"]);
    let mut cps = Vec::new();
    assert_eq!(stubs.pass(&mut o, &mut cps), PassOutcome::Progress);
    o.start_pass();
    assert_eq!(stubs.pass(&mut o, &mut cps), PassOutcome::Stalled);
    assert_eq!(o.enriched().len(), 1);
}

#[test]
fn checkpoint_survives_abrupt_stop() {
    let raw = raw_store(100);
    let config = Config::new(10, 40, None).unwrap();
    let mut o = Orchestrator::new(copies(&raw), Vec::new(), config).unwrap();
    let stubs = Stubs::new(&[]);
    let first = match o.next_step() {
        Step::Batch(items) => items,
        Step::Finished(_) => panic!("expected a batch"),
    };
    assert_eq!(first.len(), 40);
    let outcomes = stubs.run_batch(first, o.concurrency());
    assert_eq!(o.absorb(outcomes), 40);
    let checkpoint = copies(o.enriched());
    drop(o);

    let config = Config::new(10, 40, None).unwrap();
    let restarted = Orchestrator::new(copies(&raw), checkpoint, config).unwrap();
    let left = restarted.remaining();
    assert_eq!(left.len(), 60);
    assert_eq!(urls(&left), urls(&raw[40..]));
    assert_eq!(stubs.resolves.get(), 40);
}

#[test]
fn one_failing_item_does_not_sink_the_batch() {
    let raw = raw_store(5);
    let mut o = Orchestrator::new(raw, Vec::new(), Config::new(3, 5, None).unwrap()).unwrap();
    let stubs = Stubs::new(&["u2"]);
    let items = match o.next_step() {
        Step::Batch(items) => items,
        Step::Finished(_) => panic!("expected a batch"),
    };
    let outcomes = stubs.run_batch(items, o.concurrency());
    assert_eq!(o.absorb(outcomes), 4);
    assert_eq!(urls(o.enriched()), vec!["u0", "u1", "u3", "u4"]);
    assert_eq!(urls(&o.remaining()), vec!["u2"]);
}

#[test]
fn all_failing_backlog_stalls_after_one_pass() {
    let raw = raw_store(5);
    let mut o = Orchestrator::new(raw, Vec::new(), Config::new(2, 2, None).unwrap()).unwrap();
    let failing = ["u0", "u1", "u2", "u3", "u4"];
    let stubs = Stubs::new(&failing);
    let mut cps = Vec::new();
    assert_eq!(stubs.pass(&mut o, &mut cps), PassOutcome::Stalled);
    assert_eq!(cps.len(), 3);
    assert_eq!(stubs.resolves.get(), 5);
    assert!(o.enriched().is_empty());
}

#[test]
fn worker_pool_respects_concurrency_limit() {
    let raw = raw_store(23);
    let mut o = Orchestrator::new(raw, Vec::new(), Config::new(4, 10, None).unwrap()).unwrap();
    let stubs = Stubs::new(&[]);
    let mut cps = Vec::new();
    assert_eq!(stubs.pass(&mut o, &mut cps), PassOutcome::Completed);
    assert_eq!(stubs.peak.get(), 4);
    assert_eq!(o.enriched().len(), 23);
    assert_eq!(cps.len(), 3);
}

#[test]
fn empty_backlog_completes_at_once() {
    let mut o = Orchestrator::new(Vec::new(), Vec::new(), Config::standard()).unwrap();
    assert!(matches!(o.next_step(), Step::Finished(PassOutcome::Completed)));
}

#[test]
fn reached_target_completes() {
    let raw = raw_store(6);
    let mut o = Orchestrator::new(raw, Vec::new(), Config::new(2, 2, Some(2)).unwrap()).unwrap();
    let stubs = Stubs::new(&[]);
    let mut cps = Vec::new();
    assert_eq!(stubs.pass(&mut o, &mut cps), PassOutcome::Completed);
    assert_eq!(o.enriched().len(), 2);
    assert_eq!(o.remaining().len(), 4);
}

#[test]
fn foreign_or_bare_results_are_not_absorbed() {
    let raw = raw_store(2);
    let mut o = Orchestrator::new(raw, Vec::new(), Config::new(2, 1, None).unwrap()).unwrap();
    assert!(matches!(o.next_step(), Step::Batch(_)));
    assert!(o.awaiting_outcomes());
    let stubs = Stubs::new(&[]);
    let foreign = stubs.enrich(rec("X", "elsewhere"));
    let bare = rec("T0", "u0");
    assert_eq!(o.absorb(vec![foreign, Ok(bare)]), 0);
    assert!(!o.awaiting_outcomes());
    assert!(o.enriched().is_empty());
}

#[test]
fn corrupt_enriched_store_is_refused() {
    let raw = raw_store(2);
    let mut bad = rec("T0", "u0");
    bad.embedding = Some(vec![0; EMBEDDING_DIM]);
    let r = Orchestrator::new(raw, vec![bad], Config::standard());
    assert_eq!(r.err(), Some(Corruption::EmbeddingWithoutTranscript));
}

#[test]
fn backlog_skips_enriched_keys() {
    let raw = raw_store(4);
    let enriched = vec![rec("T1", "u1"), rec("T3", "u3")];
    assert_eq!(urls(&backlog(&raw, &enriched)), vec!["u0", "u2"]);
}

#[test]
fn config_refuses_zero_limits() {
    assert!(Config::new(0, 5, None).is_none());
    assert!(Config::new(5, 0, None).is_none());
    let c = Config::standard();
    assert_eq!((c.concurrency, c.batch_size, c.target_total), (10, 50, None));
}
