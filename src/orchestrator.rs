use vstd::prelude::*;
use crate::enrich::SkipReason;
use crate::store::{
    check_collection, collection_valid, has_key, key_set, keys_unique, lemma_merge_covers, lemma_merge_known,
    lemma_merge_valid, lemma_views_push, merge_indexed, merge_spec, Corruption, DedupIndex,
};
use crate::submission::{
    is_enriched, key_of, record_valid, views, Submission, SubmissionView, EMBEDDING_DIM,
};

verus! {

/// The records of `raw` whose key is not in `enriched`, in raw order.
pub open spec fn backlog_spec(raw: Seq<SubmissionView>, enriched: Seq<SubmissionView>) -> Seq<
    SubmissionView,
>
    decreases raw.len(),
{
    if raw.len() == 0 {
        Seq::empty()
    } else {
        let rest = backlog_spec(raw.drop_last(), enriched);
        if has_key(enriched, key_of(raw.last())) {
            rest
        } else {
            rest.push(raw.last())
        }
    }
}

/// A success is taken into the enriched store only when it is a valid, enriched
/// record for an item of the batch that produced it.
pub open spec fn acceptable(s: SubmissionView, batch: Seq<SubmissionView>) -> bool {
    record_valid(s) && is_enriched(s) && has_key(batch, key_of(s))
}

/// The successes among `outcomes` that are taken into the store, in order.
pub open spec fn accepted(
    outcomes: Seq<Result<Submission, SkipReason>>,
    batch: Seq<SubmissionView>,
) -> Seq<SubmissionView>
    decreases outcomes.len(),
{
    if outcomes.len() == 0 {
        Seq::empty()
    } else {
        let rest = accepted(outcomes.drop_last(), batch);
        match outcomes.last() {
            Ok(s) => if acceptable(s@, batch) {
                rest.push(s@)
            } else {
                rest
            },
            Err(_) => rest,
        }
    }
}

/// How a pass over the backlog ended.
#[derive(Debug, Clone, Copy, PartialEq, Eq, Structural)]
pub enum PassOutcome {
    /// Nothing is left to enrich, or the target count is reached.
    Completed,
    /// Records were enriched and some are left: another pass may enrich more.
    Progress,
    /// A pass over a non-empty backlog enriched nothing.
    Stalled,
}

/// The outcome of a finished pass over `pass_len` records that added `added`, with
/// `left` records still in the backlog.
pub open spec fn pass_outcome(pass_len: nat, added: nat, left: nat) -> PassOutcome {
    if pass_len == 0 || left == 0 {
        PassOutcome::Completed
    } else if added == 0 {
        PassOutcome::Stalled
    } else {
        PassOutcome::Progress
    }
}

/// The knobs of a run.
pub struct Config {
    /// Most items of a batch in flight at once.
    pub concurrency: usize,
    /// Most items in one batch.
    pub batch_size: usize,
    /// Enriched count at which the run is complete, if any.
    pub target_total: Option<usize>,
}

impl Config {
    /// A configuration, refused when a limit is zero.
    pub fn new(concurrency: usize, batch_size: usize, target_total: Option<usize>) -> (r: Option<
        Config,
    >)
        ensures
            r is Some <==> (concurrency > 0 && batch_size > 0),
            r is Some ==> r->0.concurrency == concurrency && r->0.batch_size == batch_size
                && r->0.target_total == target_total,
    {
        if concurrency > 0 && batch_size > 0 {
            Some(Config { concurrency, batch_size, target_total })
        } else {
            None
        }
    }

    /// Ten in flight, batches of fifty, no target.
    pub fn standard() -> (r: Config)
        ensures
            r.concurrency == 10,
            r.batch_size == 50,
            r.target_total is None,
    {
        Config { concurrency: 10, batch_size: 50, target_total: None }
    }
}

/// What the driver does next.
pub enum Step {
    /// Run these records through the enrichment steps, then hand back the outcomes.
    Batch(Vec<Submission>),
    /// The pass is over.
    Finished(PassOutcome),
}

/// The records of `raw` whose key is not in `enriched`, in raw order.
pub fn backlog(raw: &Vec<Submission>, enriched: &Vec<Submission>) -> (r: Vec<Submission>)
    ensures
        views(r@) == backlog_spec(views(raw@), views(enriched@)),
{
    let index = DedupIndex::build(enriched);
    backlog_indexed(raw, enriched, &index)
}

fn backlog_indexed(raw: &Vec<Submission>, enriched: &Vec<Submission>, index: &DedupIndex) -> (r:
    Vec<Submission>)
    requires
        index@ == key_set(views(enriched@)),
    ensures
        views(r@) == backlog_spec(views(raw@), views(enriched@)),
{
    let ghost e = views(enriched@);
    let ghost rv = views(raw@);
    let mut out: Vec<Submission> = Vec::new();
    let mut i: usize = 0;
    proof {
        assert(rv.subrange(0, 0) =~= Seq::<SubmissionView>::empty());
        assert(views(out@) =~= Seq::<SubmissionView>::empty());
    }
    while i < raw.len()
        invariant
            i <= raw@.len(),
            rv == views(raw@),
            e == views(enriched@),
            index@ == key_set(e),
            views(out@) == backlog_spec(rv.subrange(0, i as int), e),
        decreases raw@.len() - i,
    {
        proof {
            assert(rv.subrange(0, i + 1 as int).drop_last() =~= rv.subrange(0, i as int));
            assert(rv.subrange(0, i + 1 as int).last() == raw@[i as int]@);
        }
        if !index.contains(raw[i].youtube_url.as_str()) {
            let d = raw[i].duplicate();
            proof {
                lemma_views_push(out@, d);
            }
            out.push(d);
        }
        i = i + 1;
    }
    proof {
        assert(rv.subrange(0, i as int) =~= rv);
    }
    out
}

/// Drives passes over the backlog: hands out batches of it in raw order, takes back
/// each batch's outcomes, merges the successes into the enriched store, and says
/// how a pass ended.
pub struct Orchestrator {
    raw: Vec<Submission>,
    enriched: Vec<Submission>,
    index: DedupIndex,
    pass: Vec<Submission>,
    cursor: usize,
    batch: Option<Vec<Submission>>,
    added: usize,
    config: Config,
}

/// The state of an [`Orchestrator`].
pub struct OrchestratorView {
    pub raw: Seq<SubmissionView>,
    pub enriched: Seq<SubmissionView>,
    /// The backlog as it stood when the pass began.
    pub pass: Seq<SubmissionView>,
    /// Records of the pass handed out so far.
    pub cursor: nat,
    /// The batch handed out and not yet taken back.
    pub batch: Option<Seq<SubmissionView>>,
    /// Records enriched during the pass.
    pub added: nat,
    pub concurrency: nat,
    pub batch_size: nat,
    pub target_total: Option<usize>,
}

impl View for Orchestrator {
    type V = OrchestratorView;

    closed spec fn view(&self) -> OrchestratorView {
        OrchestratorView {
            raw: views(self.raw@),
            enriched: views(self.enriched@),
            pass: views(self.pass@),
            cursor: self.cursor as nat,
            batch: match self.batch {
                Some(b) => Some(views(b@)),
                None => None,
            },
            added: self.added as nat,
            concurrency: self.config.concurrency as nat,
            batch_size: self.config.batch_size as nat,
            target_total: self.config.target_total,
        }
    }
}

impl Orchestrator {
    /// The key index matches the enriched store.
    pub closed spec fn index_consistent(&self) -> bool {
        self.index@ == key_set(views(self.enriched@))
    }

    /// The invariant: the enriched store is a valid collection, the limits are
    /// positive and the cursor lies within the pass.
    pub open spec fn wf(&self) -> bool {
        &&& self.index_consistent()
        &&& collection_valid(self@.enriched)
        &&& self@.concurrency > 0
        &&& self@.batch_size > 0
        &&& self@.cursor <= self@.pass.len()
        &&& self@.added <= self@.enriched.len()
    }

    /// Starts from the raw and enriched stores, refusing an enriched store that
    /// breaks the store's invariants. The first pass begins at once.
    pub fn new(raw: Vec<Submission>, enriched: Vec<Submission>, config: Config) -> (r: Result<
        Orchestrator,
        Corruption,
    >)
        requires
            config.concurrency > 0,
            config.batch_size > 0,
        ensures
            r is Ok <==> collection_valid(views(enriched@)),
            r is Ok ==> ({
                let o = r->Ok_0;
                &&& o.wf()
                &&& o@.raw == views(raw@)
                &&& o@.enriched == views(enriched@)
                &&& o@.pass == backlog_spec(views(raw@), views(enriched@))
                &&& o@.cursor == 0
                &&& o@.batch is None
                &&& o@.added == 0
                &&& o@.concurrency == config.concurrency
                &&& o@.batch_size == config.batch_size
                &&& o@.target_total == config.target_total
            }),
    {
        match check_collection(&enriched) {
            Err(e) => Err(e),
            Ok(()) => {
                let index = DedupIndex::build(&enriched);
                let pass = backlog_indexed(&raw, &enriched, &index);
                Ok(
                    Orchestrator {
                        raw,
                        enriched,
                        index,
                        pass,
                        cursor: 0,
                        batch: None,
                        added: 0,
                        config,
                    },
                )
            },
        }
    }
}

fn copy_range(v: &Vec<Submission>, from: usize, to: usize) -> (r: Vec<Submission>)
    requires
        from <= to <= v@.len(),
    ensures
        views(r@) == views(v@).subrange(from as int, to as int),
{
    let mut out: Vec<Submission> = Vec::new();
    let mut i: usize = from;
    while i < to
        invariant
            from <= i <= to,
            to <= v@.len(),
            views(out@) == views(v@).subrange(from as int, i as int),
        decreases to - i,
    {
        let d = v[i].duplicate();
        proof {
            lemma_views_push(out@, d);
            assert(views(v@).subrange(from as int, i + 1 as int) =~= views(v@).subrange(
                from as int,
                i as int,
            ).push(d@));
        }
        out.push(d);
        i = i + 1;
    }
    out
}

/// Every accepted record is acceptable for the batch.
pub proof fn lemma_accepted_acceptable(
    outcomes: Seq<Result<Submission, SkipReason>>,
    batch: Seq<SubmissionView>,
)
    ensures
        forall|i: int|
            0 <= i < accepted(outcomes, batch).len() ==> acceptable(
                #[trigger] accepted(outcomes, batch)[i],
                batch,
            ),
        accepted(outcomes, batch).len() <= outcomes.len(),
    decreases outcomes.len(),
{
    if outcomes.len() > 0 {
        lemma_accepted_acceptable(outcomes.drop_last(), batch);
        let rest = accepted(outcomes.drop_last(), batch);
        let a = accepted(outcomes, batch);
        assert forall|i: int| 0 <= i < a.len() implies acceptable(#[trigger] a[i], batch) by {
            if i < rest.len() {
                assert(a[i] == rest[i]);
            }
        }
    }
}

impl Orchestrator {
    /// Hands out the next batch of the pass, or says how the pass ended. A reached
    /// target ends the run at once.
    pub fn next_step(&mut self) -> (r: Step)
        requires
            old(self).wf(),
            old(self)@.batch is None,
        ensures
            final(self).wf(),
            final(self)@.raw == old(self)@.raw,
            final(self)@.enriched == old(self)@.enriched,
            final(self)@.pass == old(self)@.pass,
            final(self)@.added == old(self)@.added,
            final(self)@.concurrency == old(self)@.concurrency,
            final(self)@.batch_size == old(self)@.batch_size,
            final(self)@.target_total == old(self)@.target_total,
            ({
                let o = old(self)@;
                let reached = o.target_total is Some && o.enriched.len() >= o.target_total->0;
                let end: int = if o.cursor + o.batch_size < o.pass.len() {
                    (o.cursor + o.batch_size) as int
                } else {
                    o.pass.len() as int
                };
                &&& reached ==> r == Step::Finished(PassOutcome::Completed) && final(self)@ == o
                &&& !reached && o.cursor < o.pass.len() ==> r is Batch && views(r->Batch_0@)
                    == o.pass.subrange(o.cursor as int, end) && final(self)@.cursor == end
                    && final(self)@.batch == Some(o.pass.subrange(o.cursor as int, end))
                &&& !reached && o.cursor == o.pass.len() ==> r == Step::Finished(
                    pass_outcome(o.pass.len(), o.added, backlog_spec(o.raw, o.enriched).len()),
                ) && final(self)@ == o
            }),
    {
        let reached = match self.config.target_total {
            Some(t) => self.enriched.len() >= t,
            None => false,
        };
        if reached {
            return Step::Finished(PassOutcome::Completed);
        }
        if self.cursor < self.pass.len() {
            let end = if self.pass.len() - self.cursor > self.config.batch_size {
                self.cursor + self.config.batch_size
            } else {
                self.pass.len()
            };
            let kept = copy_range(&self.pass, self.cursor, end);
            let handed = copy_range(&self.pass, self.cursor, end);
            self.batch = Some(kept);
            self.cursor = end;
            Step::Batch(handed)
        } else {
            let left = backlog_indexed(&self.raw, &self.enriched, &self.index).len();
            proof {
                assert(views(self.pass@).len() == self.pass@.len());
            }
            let outcome = if self.pass.len() == 0 || left == 0 {
                PassOutcome::Completed
            } else if self.added == 0 {
                PassOutcome::Stalled
            } else {
                PassOutcome::Progress
            };
            Step::Finished(outcome)
        }
    }

    /// Takes back the outcomes of the batch handed out last and merges the
    /// acceptable successes into the enriched store. Skips change nothing. Returns
    /// how many records were added; the caller then saves the enriched store.
    pub fn absorb(&mut self, outcomes: Vec<Result<Submission, SkipReason>>) -> (n: usize)
        requires
            old(self).wf(),
            old(self)@.batch is Some,
        ensures
            final(self).wf(),
            final(self)@.enriched == merge_spec(
                old(self)@.enriched,
                accepted(outcomes@, old(self)@.batch->0),
            ),
            n == final(self)@.enriched.len() - old(self)@.enriched.len(),
            final(self)@.added == old(self)@.added + n,
            final(self)@.batch is None,
            final(self)@.raw == old(self)@.raw,
            final(self)@.pass == old(self)@.pass,
            final(self)@.cursor == old(self)@.cursor,
            final(self)@.concurrency == old(self)@.concurrency,
            final(self)@.batch_size == old(self)@.batch_size,
            final(self)@.target_total == old(self)@.target_total,
    {
        let ghost bv = old(self)@.batch->0;
        let taken = self.batch.take();
        let batch = match taken {
            Some(b) => b,
            None => Vec::new(),
        };
        let bidx = DedupIndex::build(&batch);
        let mut acc: Vec<Submission> = Vec::new();
        let mut i: usize = 0;
        proof {
            assert(outcomes@.subrange(0, 0) =~= Seq::<Result<Submission, SkipReason>>::empty());
            assert(views(acc@) =~= Seq::<SubmissionView>::empty());
        }
        while i < outcomes.len()
            invariant
                i <= outcomes@.len(),
                bv == views(batch@),
                bidx@ == key_set(bv),
                views(acc@) == accepted(outcomes@.subrange(0, i as int), bv),
            decreases outcomes@.len() - i,
        {
            proof {
                assert(outcomes@.subrange(0, i + 1 as int).drop_last() =~= outcomes@.subrange(
                    0,
                    i as int,
                ));
                assert(outcomes@.subrange(0, i + 1 as int).last() == outcomes@[i as int]);
            }
            match &outcomes[i] {
                Ok(s) => {
                    if s.is_valid() && s.is_enriched() && bidx.contains(s.youtube_url.as_str()) {
                        let d = s.duplicate();
                        proof {
                            lemma_views_push(acc@, d);
                        }
                        acc.push(d);
                    }
                },
                Err(_) => {},
            }
            i = i + 1;
        }
        proof {
            assert(outcomes@.subrange(0, i as int) =~= outcomes@);
            lemma_accepted_acceptable(outcomes@, bv);
            lemma_merge_valid(views(self.enriched@), views(acc@));
        }
        let n = merge_indexed(&mut self.enriched, &mut self.index, &acc);
        let len = self.enriched.len();
        assert(self.added + n <= len);
        self.added = self.added + n;
        n
    }

    /// Begins a new pass over the backlog as it stands now.
    pub fn start_pass(&mut self)
        requires
            old(self).wf(),
            old(self)@.batch is None,
        ensures
            final(self).wf(),
            final(self)@.raw == old(self)@.raw,
            final(self)@.enriched == old(self)@.enriched,
            final(self)@.pass == backlog_spec(old(self)@.raw, old(self)@.enriched),
            final(self)@.cursor == 0,
            final(self)@.batch is None,
            final(self)@.added == 0,
            final(self)@.concurrency == old(self)@.concurrency,
            final(self)@.batch_size == old(self)@.batch_size,
            final(self)@.target_total == old(self)@.target_total,
    {
        self.pass = backlog_indexed(&self.raw, &self.enriched, &self.index);
        self.cursor = 0;
        self.added = 0;
    }

    /// The enriched store, to be saved as a checkpoint.
    pub fn enriched(&self) -> (r: &Vec<Submission>)
        ensures
            views(r@) == self@.enriched,
    {
        &self.enriched
    }

    /// The raw store.
    pub fn raw(&self) -> (r: &Vec<Submission>)
        ensures
            views(r@) == self@.raw,
    {
        &self.raw
    }

    /// The records not yet enriched, in raw order.
    pub fn remaining(&self) -> (r: Vec<Submission>)
        requires
            self.wf(),
        ensures
            views(r@) == backlog_spec(self@.raw, self@.enriched),
    {
        backlog_indexed(&self.raw, &self.enriched, &self.index)
    }

    /// Most items of a batch in flight at once.
    pub fn concurrency(&self) -> (r: usize)
        ensures
            r == self@.concurrency,
    {
        self.config.concurrency
    }

    /// Whether a batch is out and its outcomes not yet taken back.
    pub fn awaiting_outcomes(&self) -> (r: bool)
        ensures
            r == self@.batch is Some,
    {
        self.batch.is_some()
    }
}

/// Every record of a well-formed orchestrator's enriched store that has an
/// embedding has a transcript, and an embedding of exactly `EMBEDDING_DIM` components.
pub proof fn lemma_enriched_store_valid(o: &Orchestrator)
    requires
        o.wf(),
    ensures
        forall|i: int|
            0 <= i < o@.enriched.len() && (#[trigger] o@.enriched[i]).embedding is Some ==> {
                &&& o@.enriched[i].transcript is Some
                &&& o@.enriched[i].embedding->0.len() == EMBEDDING_DIM
            },
{
    assert forall|i: int|
        0 <= i < o@.enriched.len() && (#[trigger] o@.enriched[i]).embedding is Some implies {
        &&& o@.enriched[i].transcript is Some
        &&& o@.enriched[i].embedding->0.len() == EMBEDDING_DIM
    } by {
        assert(record_valid(o@.enriched[i]));
    }
}

proof fn lemma_accepted_contains(
    outcomes: Seq<Result<Submission, SkipReason>>,
    batch: Seq<SubmissionView>,
    j: int,
)
    requires
        0 <= j < outcomes.len(),
        outcomes[j] is Ok,
        acceptable(outcomes[j]->Ok_0@, batch),
    ensures
        accepted(outcomes, batch).contains(outcomes[j]->Ok_0@),
    decreases outcomes.len(),
{
    let a = accepted(outcomes, batch);
    if j == outcomes.len() - 1 {
        assert(a[a.len() - 1] == outcomes[j]->Ok_0@);
    } else {
        let rest = outcomes.drop_last();
        assert(rest[j] == outcomes[j]);
        lemma_accepted_contains(rest, batch, j);
        let r = accepted(rest, batch);
        let k = choose|k: int| 0 <= k < r.len() && r[k] == outcomes[j]->Ok_0@;
        assert(a[k] == r[k]);
    }
}

/// A success for an item of the batch reaches the enriched store whatever the other
/// items of the batch did: a failing item costs only itself.
pub proof fn lemma_failure_isolation(
    enriched: Seq<SubmissionView>,
    outcomes: Seq<Result<Submission, SkipReason>>,
    batch: Seq<SubmissionView>,
    j: int,
)
    requires
        0 <= j < outcomes.len(),
        outcomes[j] is Ok,
        acceptable(outcomes[j]->Ok_0@, batch),
    ensures
        has_key(merge_spec(enriched, accepted(outcomes, batch)), key_of(outcomes[j]->Ok_0@)),
{
    lemma_accepted_contains(outcomes, batch, j);
    let a = accepted(outcomes, batch);
    let k = choose|k: int| 0 <= k < a.len() && a[k] == outcomes[j]->Ok_0@;
    lemma_merge_covers(enriched, a);
    assert(key_of(a[k]) == key_of(outcomes[j]->Ok_0@));
}

/// A batch whose every item was skipped leaves the enriched store as it was.
pub proof fn lemma_all_skipped(
    enriched: Seq<SubmissionView>,
    outcomes: Seq<Result<Submission, SkipReason>>,
    batch: Seq<SubmissionView>,
)
    requires
        forall|i: int| 0 <= i < outcomes.len() ==> (#[trigger] outcomes[i]) is Err,
    ensures
        accepted(outcomes, batch).len() == 0,
        merge_spec(enriched, accepted(outcomes, batch)) == enriched,
    decreases outcomes.len(),
{
    if outcomes.len() > 0 {
        let rest = outcomes.drop_last();
        assert forall|i: int| 0 <= i < rest.len() implies (#[trigger] rest[i]) is Err by {
            assert(rest[i] == outcomes[i]);
        }
        lemma_all_skipped(enriched, rest, batch);
        assert(outcomes[outcomes.len() - 1] is Err);
    }
}

/// A pass that began on a non-empty backlog and enriched nothing ends stalled: the
/// store is unchanged, so the backlog left is the one the pass began with.
pub proof fn lemma_no_progress_stalls(raw: Seq<SubmissionView>, enriched: Seq<SubmissionView>)
    requires
        backlog_spec(raw, enriched).len() > 0,
    ensures
        pass_outcome(
            backlog_spec(raw, enriched).len(),
            0,
            backlog_spec(raw, enriched).len(),
        ) == PassOutcome::Stalled,
{
}

/// The records of `c` whose key is not in `keys`, in order.
pub open spec fn without_keys(c: Seq<SubmissionView>, keys: Set<Seq<char>>) -> Seq<SubmissionView>
    decreases c.len(),
{
    if c.len() == 0 {
        Seq::empty()
    } else {
        let rest = without_keys(c.drop_last(), keys);
        if keys.contains(key_of(c.last())) {
            rest
        } else {
            rest.push(c.last())
        }
    }
}

proof fn lemma_backlog_after(
    raw: Seq<SubmissionView>,
    enriched: Seq<SubmissionView>,
    saved: Seq<SubmissionView>,
    keys: Set<Seq<char>>,
)
    requires
        forall|k: Seq<char>| has_key(saved, k) <==> (has_key(enriched, k) || keys.contains(k)),
    ensures
        backlog_spec(raw, saved) == without_keys(backlog_spec(raw, enriched), keys),
    decreases raw.len(),
{
    if raw.len() > 0 {
        lemma_backlog_after(raw.drop_last(), enriched, saved, keys);
        let b = backlog_spec(raw.drop_last(), enriched);
        assert(b.push(raw.last()).drop_last() =~= b);
    }
}

proof fn lemma_without_all(c: Seq<SubmissionView>, keys: Set<Seq<char>>)
    requires
        forall|i: int| 0 <= i < c.len() ==> keys.contains(key_of(#[trigger] c[i])),
    ensures
        without_keys(c, keys) == Seq::<SubmissionView>::empty(),
    decreases c.len(),
{
    if c.len() > 0 {
        let d = c.drop_last();
        assert forall|i: int| 0 <= i < d.len() implies keys.contains(key_of(#[trigger] d[i])) by {
            assert(d[i] == c[i]);
        }
        lemma_without_all(d, keys);
        assert(keys.contains(key_of(c[c.len() - 1])));
    }
}

proof fn lemma_without_prefix(b: Seq<SubmissionView>, k: int)
    requires
        keys_unique(b),
        0 <= k <= b.len(),
    ensures
        without_keys(b, key_set(b.subrange(0, k))) == b.subrange(k, b.len() as int),
    decreases b.len(),
{
    let keys = key_set(b.subrange(0, k));
    if k == b.len() {
        assert forall|i: int| 0 <= i < b.len() implies keys.contains(key_of(#[trigger] b[i])) by {
            assert(b.subrange(0, k)[i] == b[i]);
        }
        lemma_without_all(b, keys);
        assert(b.subrange(k, b.len() as int) =~= Seq::<SubmissionView>::empty());
    } else {
        let d = b.drop_last();
        let x = b.last();
        assert forall|i: int, j: int|
            0 <= i < d.len() && 0 <= j < d.len() && i != j implies key_of(#[trigger] d[i])
            != key_of(#[trigger] d[j]) by {
            assert(d[i] == b[i] && d[j] == b[j]);
        }
        assert(d.subrange(0, k) =~= b.subrange(0, k));
        lemma_without_prefix(d, k);
        if keys.contains(key_of(x)) {
            let p = b.subrange(0, k);
            let i = choose|i: int| 0 <= i < p.len() && #[trigger] key_of(p[i]) == key_of(x);
            assert(p[i] == b[i]);
            assert(key_of(b[i]) != key_of(b[b.len() - 1]));
        }
        assert(d.subrange(k, d.len() as int).push(x) =~= b.subrange(k, b.len() as int));
    }
}

proof fn lemma_backlog_from_raw(raw: Seq<SubmissionView>, enriched: Seq<SubmissionView>, k: Seq<char>)
    requires
        has_key(backlog_spec(raw, enriched), k),
    ensures
        has_key(raw, k),
    decreases raw.len(),
{
    if raw.len() > 0 {
        let b = backlog_spec(raw.drop_last(), enriched);
        let full = backlog_spec(raw, enriched);
        let i = choose|i: int| 0 <= i < full.len() && #[trigger] key_of(full[i]) == k;
        if i < b.len() {
            assert(full[i] == b[i]);
            lemma_backlog_from_raw(raw.drop_last(), enriched, k);
            let j = choose|j: int| 0 <= j < raw.len() - 1 && #[trigger] key_of(raw.drop_last()[j]) == k;
            assert(raw.drop_last()[j] == raw[j]);
        } else {
            assert(key_of(raw[raw.len() - 1]) == k);
        }
    }
}

proof fn lemma_backlog_unique(raw: Seq<SubmissionView>, enriched: Seq<SubmissionView>)
    requires
        keys_unique(raw),
    ensures
        keys_unique(backlog_spec(raw, enriched)),
    decreases raw.len(),
{
    if raw.len() > 0 {
        let d = raw.drop_last();
        let x = raw.last();
        assert forall|i: int, j: int|
            0 <= i < d.len() && 0 <= j < d.len() && i != j implies key_of(#[trigger] d[i])
            != key_of(#[trigger] d[j]) by {
            assert(d[i] == raw[i] && d[j] == raw[j]);
        }
        lemma_backlog_unique(d, enriched);
        let b = backlog_spec(d, enriched);
        if !has_key(enriched, key_of(x)) {
            if has_key(b, key_of(x)) {
                lemma_backlog_from_raw(d, enriched, key_of(x));
                let j = choose|j: int| 0 <= j < d.len() && #[trigger] key_of(d[j]) == key_of(x);
                assert(d[j] == raw[j]);
                assert(key_of(raw[j]) != key_of(raw[raw.len() - 1]));
            }
            let r = b.push(x);
            assert forall|i: int, j: int|
                0 <= i < r.len() && 0 <= j < r.len() && i != j implies key_of(#[trigger] r[i])
                != key_of(#[trigger] r[j]) by {
                if i == b.len() {
                    assert(r[j] == b[j]);
                } else if j == b.len() {
                    assert(r[i] == b[i]);
                } else {
                    assert(r[i] == b[i] && r[j] == b[j]);
                }
            }
        }
    }
}

/// Once the first `k` records of the backlog are in the saved enriched store (under
/// their keys, beside what was there), the backlog computed from the saved store is
/// the rest of the old one: nothing saved is done again and nothing else is lost.
pub proof fn lemma_resume_after_checkpoint(
    raw: Seq<SubmissionView>,
    enriched: Seq<SubmissionView>,
    saved: Seq<SubmissionView>,
    k: int,
)
    requires
        keys_unique(raw),
        0 <= k <= backlog_spec(raw, enriched).len(),
        forall|key: Seq<char>|
            has_key(saved, key) <==> (has_key(enriched, key) || has_key(
                backlog_spec(raw, enriched).subrange(0, k),
                key,
            )),
    ensures
        backlog_spec(raw, saved) == backlog_spec(raw, enriched).subrange(
            k,
            backlog_spec(raw, enriched).len() as int,
        ),
{
    let b = backlog_spec(raw, enriched);
    let keys = key_set(b.subrange(0, k));
    lemma_backlog_after(raw, enriched, saved, keys);
    lemma_backlog_unique(raw, enriched);
    lemma_without_prefix(b, k);
}

} // verus!
