use vstd::prelude::*;

verus! {

/// Number of components of an embedding vector.
pub const EMBEDDING_DIM: usize = 1536;

/// One competition entry with its optional derived artifacts.
///
/// The embedding holds each component as the bit pattern of an IEEE-754
/// single-precision number.
pub struct Submission {
    pub title: String,
    pub description: String,
    pub niche: String,
    pub youtube_url: String,
    pub youtube_transcript: Option<String>,
    pub embedding: Option<Vec<u32>>,
    pub social: String,
}

/// The mathematical value of a [`Submission`].
pub struct SubmissionView {
    pub title: Seq<char>,
    pub description: Seq<char>,
    pub niche: Seq<char>,
    pub youtube_url: Seq<char>,
    pub transcript: Option<Seq<char>>,
    pub embedding: Option<Seq<u32>>,
    pub social: Seq<char>,
}

impl View for Submission {
    type V = SubmissionView;

    open spec fn view(&self) -> SubmissionView {
        SubmissionView {
            title: self.title@,
            description: self.description@,
            niche: self.niche@,
            youtube_url: self.youtube_url@,
            transcript: match self.youtube_transcript {
                Some(t) => Some(t@),
                None => None,
            },
            embedding: match self.embedding {
                Some(e) => Some(e@),
                None => None,
            },
            social: self.social@,
        }
    }
}

/// The identity of a record: its video URL.
pub open spec fn key_of(s: SubmissionView) -> Seq<char> {
    s.youtube_url
}

/// A record is valid when an embedding is present only beside a transcript and
/// always has exactly `EMBEDDING_DIM` components.
pub open spec fn record_valid(s: SubmissionView) -> bool {
    &&& (s.embedding is Some ==> s.transcript is Some)
    &&& (s.embedding is Some ==> s.embedding->0.len() == EMBEDDING_DIM)
}

/// A record carries both derived artifacts.
pub open spec fn is_enriched(s: SubmissionView) -> bool {
    s.transcript is Some && s.embedding is Some
}

/// The values of a sequence of records.
pub open spec fn views(c: Seq<Submission>) -> Seq<SubmissionView> {
    c.map_values(|s: Submission| s@)
}

fn copy_words(v: &Vec<u32>) -> (r: Vec<u32>)
    ensures
        r@ == v@,
{
    let mut r: Vec<u32> = Vec::new();
    let mut i: usize = 0;
    while i < v.len()
        invariant
            i <= v@.len(),
            r@ == v@.subrange(0, i as int),
        decreases v@.len() - i,
    {
        r.push(v[i]);
        i = i + 1;
    }
    assert(r@ =~= v@);
    r
}

impl Submission {
    /// A freshly scraped record, with no derived artifacts.
    pub fn new(
        title: String,
        description: String,
        niche: String,
        youtube_url: String,
        social: String,
    ) -> (r: Submission)
        ensures
            r@.title == title@,
            r@.description == description@,
            r@.niche == niche@,
            r@.youtube_url == youtube_url@,
            r@.social == social@,
            r@.transcript is None,
            r@.embedding is None,
    {
        Submission {
            title,
            description,
            niche,
            youtube_url,
            youtube_transcript: None,
            embedding: None,
            social,
        }
    }

    /// The record's identity.
    pub fn key(&self) -> (r: &String)
        ensures
            r@ == key_of(self@),
    {
        &self.youtube_url
    }

    /// A copy of the record with the same value.
    pub fn duplicate(&self) -> (r: Submission)
        ensures
            r@ == self@,
    {
        let embedding = match &self.embedding {
            Some(e) => Some(copy_words(e)),
            None => None,
        };
        Submission {
            title: self.title.clone(),
            description: self.description.clone(),
            niche: self.niche.clone(),
            youtube_url: self.youtube_url.clone(),
            youtube_transcript: match &self.youtube_transcript {
                Some(t) => Some(t.clone()),
                None => None,
            },
            embedding,
            social: self.social.clone(),
        }
    }

    /// Whether the record meets the invariants of a store entry.
    pub fn is_valid(&self) -> (r: bool)
        ensures
            r == record_valid(self@),
    {
        match &self.embedding {
            Some(e) => self.youtube_transcript.is_some() && e.len() == EMBEDDING_DIM,
            None => true,
        }
    }

    /// Whether the record carries both a transcript and an embedding.
    pub fn is_enriched(&self) -> (r: bool)
        ensures
            r == is_enriched(self@),
    {
        self.youtube_transcript.is_some() && self.embedding.is_some()
    }
}

} // verus!
