use vstd::prelude::*;
use crate::submission::{key_of, record_valid, is_enriched, Submission, SubmissionView, EMBEDDING_DIM};

verus! {

/// Why a record was left un-enriched in this pass.
#[derive(Debug, Clone, Copy, PartialEq, Eq, Structural)]
pub enum SkipReason {
    Unresolvable,
    TranscriptionFailed,
    EmbeddingFailed,
    VectorLengthMismatch,
}

/// A fetchable audio locator and its content type.
pub struct Media {
    pub locator: String,
    pub content_type: String,
}

/// What the driver must do next for one record.
pub enum Request {
    /// Resolve the media behind this source URL.
    ResolveMedia(String),
    /// Fetch this media and transcribe it.
    Transcribe(Media),
    /// Embed this text.
    Embed(String),
    /// Nothing: the outcome is known.
    Done,
}

/// Where one record stands in resolve, transcribe, embed.
pub enum Stage {
    Resolving,
    Transcribing(Media),
    Embedding(String),
    Finished(Result<Submission, SkipReason>),
}

/// One record's way through the enrichment steps, which run strictly in order and
/// stop at the first failure.
pub struct ItemPipeline {
    pub subject: Submission,
    pub stage: Stage,
}

/// `s` with its transcript and embedding set.
pub open spec fn with_artifacts(s: SubmissionView, t: Seq<char>, v: Seq<u32>) -> SubmissionView {
    SubmissionView { transcript: Some(t), embedding: Some(v), ..s }
}

/// The skip reason for an embedding reply.
pub open spec fn embedding_failure(v: Option<Seq<u32>>) -> SkipReason {
    match v {
        Some(_) => SkipReason::VectorLengthMismatch,
        None => SkipReason::EmbeddingFailed,
    }
}

impl ItemPipeline {
    /// Starts a record at the resolve step.
    pub fn start(subject: Submission) -> (r: ItemPipeline)
        ensures
            r.subject == subject,
            r.stage is Resolving,
    {
        ItemPipeline { subject, stage: Stage::Resolving }
    }

    /// The work that the current step asks for.
    pub fn request(&self) -> (r: Request)
        ensures
            self.stage is Resolving ==> r is ResolveMedia && r->ResolveMedia_0@ == self.subject.youtube_url@,
            self.stage is Transcribing ==> r is Transcribe
                && r->Transcribe_0.locator@ == self.stage->Transcribing_0.locator@
                && r->Transcribe_0.content_type@ == self.stage->Transcribing_0.content_type@,
            self.stage is Embedding ==> r is Embed && r->Embed_0@ == self.stage->Embedding_0@,
            self.stage is Finished ==> r is Done,
    {
        match &self.stage {
            Stage::Resolving => Request::ResolveMedia(self.subject.youtube_url.clone()),
            Stage::Transcribing(m) => Request::Transcribe(
                Media { locator: m.locator.clone(), content_type: m.content_type.clone() },
            ),
            Stage::Embedding(t) => Request::Embed(t.clone()),
            Stage::Finished(_) => Request::Done,
        }
    }

    /// Takes the resolver's reply: `None` when it failed. Outside the resolve step
    /// nothing changes.
    pub fn media_resolved(&mut self, reply: Option<Media>)
        ensures
            final(self).subject == old(self).subject,
            !(old(self).stage is Resolving) ==> final(self).stage == old(self).stage,
            old(self).stage is Resolving ==> match reply {
                Some(m) => final(self).stage == Stage::Transcribing(m),
                None => final(self).stage == Stage::Finished(
                    Err::<Submission, SkipReason>(SkipReason::Unresolvable),
                ),
            },
    {
        if let Stage::Resolving = self.stage {
            self.stage = match reply {
                Some(m) => Stage::Transcribing(m),
                None => Stage::Finished(Err(SkipReason::Unresolvable)),
            };
        }
    }

    /// Takes the transcriber's reply: `None` when it failed. An empty transcript is a
    /// failure too. Outside the transcribe step nothing changes.
    pub fn transcribed(&mut self, reply: Option<String>)
        ensures
            final(self).subject == old(self).subject,
            !(old(self).stage is Transcribing) ==> final(self).stage == old(self).stage,
            old(self).stage is Transcribing ==> match reply {
                Some(t) => if t@.len() > 0 {
                    final(self).stage == Stage::Embedding(t)
                } else {
                    final(self).stage == Stage::Finished(
                        Err::<Submission, SkipReason>(SkipReason::TranscriptionFailed),
                    )
                },
                None => final(self).stage == Stage::Finished(
                    Err::<Submission, SkipReason>(SkipReason::TranscriptionFailed),
                ),
            },
    {
        if let Stage::Transcribing(_) = self.stage {
            self.stage = match reply {
                Some(t) => if !t.as_str().is_empty() {
                    Stage::Embedding(t)
                } else {
                    Stage::Finished(Err(SkipReason::TranscriptionFailed))
                },
                None => Stage::Finished(Err(SkipReason::TranscriptionFailed)),
            };
        }
    }

    /// Takes the embedder's reply: `None` when it failed. A vector of any length but
    /// `EMBEDDING_DIM` is refused whole. Outside the embed step nothing changes.
    pub fn embedded(&mut self, reply: Option<Vec<u32>>)
        ensures
            final(self).subject == old(self).subject,
            !(old(self).stage is Embedding) ==> final(self).stage == old(self).stage,
            old(self).stage is Embedding ==> {
                let ok = reply is Some && reply->0@.len() == EMBEDDING_DIM;
                &&& final(self).stage is Finished
                &&& ok ==> final(self).stage->Finished_0 is Ok
                    && final(self).stage->Finished_0->Ok_0@ == with_artifacts(
                    old(self).subject@,
                    old(self).stage->Embedding_0@,
                    reply->0@,
                )
                &&& !ok ==> final(self).stage->Finished_0 == Err::<Submission, SkipReason>(
                    embedding_failure(
                        match reply {
                            Some(v) => Some(v@),
                            None => None,
                        },
                    ),
                )
            },
    {
        if let Stage::Embedding(t) = &self.stage {
            let outcome = match reply {
                Some(v) => if v.len() == EMBEDDING_DIM {
                    let mut s = self.subject.duplicate();
                    s.youtube_transcript = Some(t.clone());
                    s.embedding = Some(v);
                    Ok(s)
                } else {
                    Err(SkipReason::VectorLengthMismatch)
                },
                None => Err(SkipReason::EmbeddingFailed),
            };
            self.stage = Stage::Finished(outcome);
        }
    }

    /// The record's outcome, once the steps have finished.
    pub fn outcome(self) -> (r: Option<Result<Submission, SkipReason>>)
        ensures
            self.stage is Finished <==> r is Some,
            self.stage is Finished ==> r->0 == self.stage->Finished_0,
    {
        match self.stage {
            Stage::Finished(o) => Some(o),
            _ => None,
        }
    }
}

/// A successful outcome is a valid, enriched record with the same key as the subject.
pub proof fn lemma_enriched_record(s: SubmissionView, t: Seq<char>, v: Seq<u32>)
    requires
        v.len() == EMBEDDING_DIM,
    ensures
        record_valid(with_artifacts(s, t, v)),
        is_enriched(with_artifacts(s, t, v)),
        key_of(with_artifacts(s, t, v)) == key_of(s),
{
}

} // verus!
