use vstd::prelude::*;
use vstd::hash_set::StringHashSet;
use crate::submission::{key_of, record_valid, views, Submission, SubmissionView, EMBEDDING_DIM};

verus! {

/// Some record of `c` has key `k`.
pub open spec fn has_key(c: Seq<SubmissionView>, k: Seq<char>) -> bool {
    exists|i: int| 0 <= i < c.len() && #[trigger] key_of(c[i]) == k
}

/// The keys present in `c`.
pub open spec fn key_set(c: Seq<SubmissionView>) -> Set<Seq<char>> {
    Set::new(|k: Seq<char>| has_key(c, k))
}

/// No two records of `c` share a key.
pub open spec fn keys_unique(c: Seq<SubmissionView>) -> bool {
    forall|i: int, j: int|
        0 <= i < c.len() && 0 <= j < c.len() && i != j ==> key_of(#[trigger] c[i]) != key_of(
            #[trigger] c[j],
        )
}

/// Every record of `c` is valid.
pub open spec fn all_valid(c: Seq<SubmissionView>) -> bool {
    forall|i: int| 0 <= i < c.len() ==> record_valid(#[trigger] c[i])
}

/// A well-formed collection: unique keys, valid records.
pub open spec fn collection_valid(c: Seq<SubmissionView>) -> bool {
    keys_unique(c) && all_valid(c)
}

/// `existing` with each record of `incoming` appended, in order, unless its key is
/// already present at that point.
pub open spec fn merge_spec(existing: Seq<SubmissionView>, incoming: Seq<SubmissionView>) -> Seq<
    SubmissionView,
>
    decreases incoming.len(),
{
    if incoming.len() == 0 {
        existing
    } else {
        let m = merge_spec(existing, incoming.drop_last());
        if has_key(m, key_of(incoming.last())) {
            m
        } else {
            m.push(incoming.last())
        }
    }
}

pub proof fn lemma_key_set_push(c: Seq<SubmissionView>, x: SubmissionView)
    ensures
        key_set(c.push(x)) == key_set(c).insert(key_of(x)),
{
    let p = c.push(x);
    assert forall|k: Seq<char>| has_key(p, k) <==> (has_key(c, k) || k == key_of(x)) by {
        if has_key(c, k) {
            let i = choose|i: int| 0 <= i < c.len() && #[trigger] key_of(c[i]) == k;
            assert(p[i] == c[i]);
        }
        if k == key_of(x) {
            assert(p[c.len() as int] == x);
        }
        if has_key(p, k) {
            let i = choose|i: int| 0 <= i < p.len() && #[trigger] key_of(p[i]) == k;
            if i < c.len() {
                assert(p[i] == c[i]);
            }
        }
    }
    assert(key_set(p) =~= key_set(c).insert(key_of(x)));
}

pub proof fn lemma_views_push(c: Seq<Submission>, x: Submission)
    ensures
        views(c.push(x)) == views(c).push(x@),
{
    assert(views(c.push(x)) =~= views(c).push(x@));
}

/// Merging keeps the existing records, in order, as a prefix; every record after
/// them comes from `incoming`.
pub proof fn lemma_merge_shape(existing: Seq<SubmissionView>, incoming: Seq<SubmissionView>)
    ensures
        merge_spec(existing, incoming).len() >= existing.len(),
        merge_spec(existing, incoming).len() <= existing.len() + incoming.len(),
        merge_spec(existing, incoming).subrange(0, existing.len() as int) == existing,
        forall|i: int|
            existing.len() <= i < merge_spec(existing, incoming).len() ==> incoming.contains(
                #[trigger] merge_spec(existing, incoming)[i],
            ),
    decreases incoming.len(),
{
    if incoming.len() > 0 {
        let rest = incoming.drop_last();
        lemma_merge_shape(existing, rest);
        let m = merge_spec(existing, rest);
        let r = merge_spec(existing, incoming);
        assert forall|i: int| existing.len() <= i < r.len() implies incoming.contains(
            #[trigger] r[i],
        ) by {
            if i < m.len() {
                assert(r[i] == m[i]);
                assert(rest.contains(m[i]));
                let j = choose|j: int| 0 <= j < rest.len() && rest[j] == m[i];
                assert(incoming[j] == rest[j]);
            } else {
                assert(r[i] == incoming[incoming.len() - 1]);
            }
        }
        assert(r.subrange(0, existing.len() as int) =~= existing);
    } else {
        assert(existing.subrange(0, existing.len() as int) =~= existing);
    }
}

/// After a merge every key of `incoming` is present.
pub proof fn lemma_merge_covers(existing: Seq<SubmissionView>, incoming: Seq<SubmissionView>)
    ensures
        forall|j: int|
            0 <= j < incoming.len() ==> has_key(
                merge_spec(existing, incoming),
                key_of(#[trigger] incoming[j]),
            ),
        forall|k: Seq<char>| has_key(existing, k) ==> has_key(merge_spec(existing, incoming), k),
    decreases incoming.len(),
{
    lemma_merge_shape(existing, incoming);
    let r = merge_spec(existing, incoming);
    assert forall|k: Seq<char>| has_key(existing, k) implies has_key(r, k) by {
        let i = choose|i: int| 0 <= i < existing.len() && #[trigger] key_of(existing[i]) == k;
        assert(r.subrange(0, existing.len() as int)[i] == r[i]);
    }
    if incoming.len() > 0 {
        let rest = incoming.drop_last();
        lemma_merge_covers(existing, rest);
        let m = merge_spec(existing, rest);
        let x = incoming.last();
        assert forall|k: Seq<char>| has_key(m, k) implies has_key(r, k) by {
            if !has_key(m, key_of(x)) {
                let i = choose|i: int| 0 <= i < m.len() && #[trigger] key_of(m[i]) == k;
                assert(r[i] == m[i]);
            }
        }
        if !has_key(m, key_of(x)) {
            assert(r[m.len() as int] == x);
        }
        assert forall|j: int| 0 <= j < incoming.len() implies has_key(
            r,
            key_of(#[trigger] incoming[j]),
        ) by {
            if j < rest.len() {
                assert(incoming[j] == rest[j]);
            }
        }
    }
}

/// Merging records whose keys are all present already changes nothing.
pub proof fn lemma_merge_known(existing: Seq<SubmissionView>, incoming: Seq<SubmissionView>)
    requires
        forall|j: int| 0 <= j < incoming.len() ==> has_key(existing, key_of(#[trigger] incoming[j])),
    ensures
        merge_spec(existing, incoming) == existing,
    decreases incoming.len(),
{
    if incoming.len() > 0 {
        let rest = incoming.drop_last();
        assert forall|j: int| 0 <= j < rest.len() implies has_key(
            existing,
            key_of(#[trigger] rest[j]),
        ) by {
            assert(rest[j] == incoming[j]);
        }
        lemma_merge_known(existing, rest);
        assert(has_key(existing, key_of(incoming[incoming.len() - 1])));
    }
}

/// Merging into a collection with unique keys keeps the keys unique.
pub proof fn lemma_merge_unique(existing: Seq<SubmissionView>, incoming: Seq<SubmissionView>)
    requires
        keys_unique(existing),
    ensures
        keys_unique(merge_spec(existing, incoming)),
    decreases incoming.len(),
{
    if incoming.len() > 0 {
        let rest = incoming.drop_last();
        lemma_merge_unique(existing, rest);
        let m = merge_spec(existing, rest);
        let x = incoming.last();
        if !has_key(m, key_of(x)) {
            let r = m.push(x);
            assert forall|i: int, j: int|
                0 <= i < r.len() && 0 <= j < r.len() && i != j implies key_of(#[trigger] r[i])
                != key_of(#[trigger] r[j]) by {
                if i == m.len() {
                    assert(key_of(m[j]) != key_of(x));
                } else if j == m.len() {
                    assert(key_of(m[i]) != key_of(x));
                } else {
                    assert(r[i] == m[i] && r[j] == m[j]);
                }
            }
        }
    }
}

/// Merging valid records into a valid collection gives a valid collection.
pub proof fn lemma_merge_valid(existing: Seq<SubmissionView>, incoming: Seq<SubmissionView>)
    requires
        collection_valid(existing),
        all_valid(incoming),
    ensures
        collection_valid(merge_spec(existing, incoming)),
{
    lemma_merge_unique(existing, incoming);
    lemma_merge_shape(existing, incoming);
    let r = merge_spec(existing, incoming);
    assert forall|i: int| 0 <= i < r.len() implies record_valid(#[trigger] r[i]) by {
        if i < existing.len() {
            assert(r.subrange(0, existing.len() as int)[i] == r[i]);
        } else {
            assert(incoming.contains(r[i]));
        }
    }
}

/// Merging a collection into itself leaves it unchanged.
pub proof fn lemma_merge_idempotent(s: Seq<SubmissionView>)
    ensures
        merge_spec(s, s) == s,
{
    assert forall|j: int| 0 <= j < s.len() implies has_key(s, key_of(#[trigger] s[j])) by {}
    lemma_merge_known(s, s);
}

/// Merging two records with the same key, one after the other, into a collection
/// with unique keys leaves exactly one record with that key.
pub proof fn lemma_dedup_by_key(s: Seq<SubmissionView>, a: SubmissionView, b: SubmissionView)
    requires
        keys_unique(s),
        key_of(a) == key_of(b),
    ensures
        ({
            let r = merge_spec(merge_spec(s, seq![a]), seq![b]);
            &&& exists|i: int| 0 <= i < r.len() && #[trigger] key_of(r[i]) == key_of(a)
            &&& forall|i: int, j: int|
                0 <= i < r.len() && 0 <= j < r.len() && key_of(#[trigger] r[i]) == key_of(a)
                    && key_of(#[trigger] r[j]) == key_of(a) ==> i == j
        }),
{
    let m = merge_spec(s, seq![a]);
    lemma_merge_covers(s, seq![a]);
    assert(seq![a][0] == a);
    assert(has_key(m, key_of(a)));
    lemma_merge_known(m, seq![b]);
    lemma_merge_unique(s, seq![a]);
}

/// The set of keys of a collection, for constant-time membership tests.
pub struct DedupIndex {
    keys: StringHashSet,
}

impl View for DedupIndex {
    type V = Set<Seq<char>>;

    closed spec fn view(&self) -> Set<Seq<char>> {
        self.keys@
    }
}

impl DedupIndex {
    /// The index of the keys of `c`.
    pub fn build(c: &Vec<Submission>) -> (r: DedupIndex)
        ensures
            r@ == key_set(views(c@)),
    {
        let mut keys = StringHashSet::new();
        let mut i: usize = 0;
        proof {
            assert(key_set(views(c@.subrange(0, 0))) =~= Set::empty());
        }
        while i < c.len()
            invariant
                i <= c@.len(),
                keys@ == key_set(views(c@.subrange(0, i as int))),
            decreases c@.len() - i,
        {
            proof {
                lemma_key_set_push(views(c@.subrange(0, i as int)), c@[i as int]@);
                lemma_views_push(c@.subrange(0, i as int), c@[i as int]);
                assert(c@.subrange(0, i as int).push(c@[i as int]) =~= c@.subrange(
                    0,
                    i + 1 as int,
                ));
            }
            keys.insert(c[i].youtube_url.clone());
            i = i + 1;
        }
        assert(c@.subrange(0, i as int) =~= c@);
        DedupIndex { keys }
    }

    /// Whether `key` is indexed.
    pub fn contains(&self, key: &str) -> (r: bool)
        ensures
            r == self@.contains(key@),
    {
        self.keys.contains(key)
    }

    /// Adds `key`.
    pub fn insert(&mut self, key: String)
        ensures
            final(self)@ == old(self)@.insert(key@),
    {
        self.keys.insert(key);
    }
}

/// Appends each record of `incoming` whose key is not yet in `existing` (nor among
/// the records appended before it) and returns how many were appended.
pub fn merge_new(existing: &mut Vec<Submission>, incoming: &Vec<Submission>) -> (added: usize)
    ensures
        views(final(existing)@) == merge_spec(views(old(existing)@), views(incoming@)),
        added == final(existing)@.len() - old(existing)@.len(),
{
    let mut index = DedupIndex::build(existing);
    merge_indexed(existing, &mut index, incoming)
}

/// As [`merge_new`], with `index` holding the keys of `existing` before and after.
pub fn merge_indexed(
    existing: &mut Vec<Submission>,
    index: &mut DedupIndex,
    incoming: &Vec<Submission>,
) -> (added: usize)
    requires
        old(index)@ == key_set(views(old(existing)@)),
    ensures
        views(final(existing)@) == merge_spec(views(old(existing)@), views(incoming@)),
        final(index)@ == key_set(views(final(existing)@)),
        added == final(existing)@.len() - old(existing)@.len(),
{
    let ghost start = views(existing@);
    let mut added: usize = 0;
    let mut i: usize = 0;
    proof {
        assert(views(incoming@).subrange(0, 0) =~= Seq::<SubmissionView>::empty());
    }
    while i < incoming.len()
        invariant
            i <= incoming@.len(),
            views(existing@) == merge_spec(start, views(incoming@).subrange(0, i as int)),
            index@ == key_set(views(existing@)),
            existing@.len() == start.len() + added,
        decreases incoming@.len() - i,
    {
        proof {
            lemma_merge_shape(start, views(incoming@).subrange(0, i as int));
            assert(views(incoming@).subrange(0, i + 1 as int).drop_last() =~= views(
                incoming@,
            ).subrange(0, i as int));
        }
        let r = &incoming[i];
        if !index.contains(r.youtube_url.as_str()) {
            let d = r.duplicate();
            proof {
                lemma_key_set_push(views(existing@), d@);
                lemma_views_push(existing@, d);
            }
            index.insert(r.youtube_url.clone());
            existing.push(d);
            added = added + 1;
        }
        i = i + 1;
    }
    proof {
        assert(views(incoming@).subrange(0, i as int) =~= views(incoming@));
    }
    added
}

/// Why a loaded collection cannot be trusted.
#[derive(Debug, Clone, Copy, PartialEq, Eq, Structural)]
pub enum Corruption {
    DuplicateKey,
    EmbeddingWithoutTranscript,
    WrongEmbeddingLength,
}

/// Checks a loaded collection against the store's invariants.
pub fn check_collection(c: &Vec<Submission>) -> (r: Result<(), Corruption>)
    ensures
        r is Ok <==> collection_valid(views(c@)),
        r == Err::<(), Corruption>(Corruption::DuplicateKey) ==> !keys_unique(views(c@)),
        r == Err::<(), Corruption>(Corruption::EmbeddingWithoutTranscript) ==> exists|i: int|
            0 <= i < c@.len() && (#[trigger] c@[i]).embedding is Some
                && c@[i].youtube_transcript is None,
        r == Err::<(), Corruption>(Corruption::WrongEmbeddingLength) ==> exists|i: int|
            0 <= i < c@.len() && (#[trigger] c@[i]).embedding is Some
                && c@[i].embedding->0@.len() != EMBEDDING_DIM,
{
    let mut index = DedupIndex::build(&Vec::new());
    let mut i: usize = 0;
    proof {
        assert(views(c@.subrange(0, 0)) =~= Seq::<SubmissionView>::empty());
        assert(key_set(Seq::<SubmissionView>::empty()) =~= Set::empty());
    }
    while i < c.len()
        invariant
            i <= c@.len(),
            index@ == key_set(views(c@.subrange(0, i as int))),
            collection_valid(views(c@.subrange(0, i as int))),
        decreases c@.len() - i,
    {
        let ghost prefix = views(c@.subrange(0, i as int));
        proof {
            assert(c@.subrange(0, i as int).push(c@[i as int]) =~= c@.subrange(0, i + 1 as int));
            lemma_views_push(c@.subrange(0, i as int), c@[i as int]);
            lemma_key_set_push(prefix, c@[i as int]@);
            assert(views(c@)[i as int] == c@[i as int]@);
        }
        let r = &c[i];
        match &r.embedding {
            Some(e) => {
                if r.youtube_transcript.is_none() {
                    return Err(Corruption::EmbeddingWithoutTranscript);
                }
                if e.len() != EMBEDDING_DIM {
                    return Err(Corruption::WrongEmbeddingLength);
                }
            },
            None => {},
        }
        if index.contains(r.youtube_url.as_str()) {
            proof {
                let j = choose|j: int| 0 <= j < prefix.len() && #[trigger] key_of(prefix[j]) == key_of(r@);
                let v = views(c@);
                assert(v[j] == prefix[j]);
                assert(v[i as int] == r@);
            }
            return Err(Corruption::DuplicateKey);
        }
        index.insert(r.youtube_url.clone());
        proof {
            let grown = views(c@.subrange(0, i + 1 as int));
            assert(grown == prefix.push(r@));
            assert forall|a: int, b: int|
                0 <= a < grown.len() && 0 <= b < grown.len() && a != b implies key_of(#[trigger] grown[a])
                != key_of(#[trigger] grown[b]) by {
                if a == i {
                    assert(grown[b] == prefix[b]);
                } else if b == i {
                    assert(grown[a] == prefix[a]);
                } else {
                    assert(grown[a] == prefix[a] && grown[b] == prefix[b]);
                }
            }
            assert forall|a: int| 0 <= a < grown.len() implies record_valid(#[trigger] grown[a]) by {
                if a < i {
                    assert(grown[a] == prefix[a]);
                }
            }
        }
        i = i + 1;
    }
    proof {
        assert(c@.subrange(0, i as int) =~= c@);
    }
    Ok(())
}

/// The records of `c` that carry a video URL, in order.
pub open spec fn with_link(c: Seq<SubmissionView>) -> Seq<SubmissionView>
    decreases c.len(),
{
    if c.len() == 0 {
        Seq::empty()
    } else {
        let rest = with_link(c.drop_last());
        if c.last().youtube_url.len() > 0 {
            rest.push(c.last())
        } else {
            rest
        }
    }
}

/// Merges freshly scanned records into the raw store: a record without a video URL
/// is dropped, the rest are merged as by [`merge_new`].
pub fn merge_scanned(existing: &mut Vec<Submission>, scanned: &Vec<Submission>) -> (added: usize)
    ensures
        views(final(existing)@) == merge_spec(views(old(existing)@), with_link(views(scanned@))),
        added == final(existing)@.len() - old(existing)@.len(),
{
    let ghost sv = views(scanned@);
    let mut linked: Vec<Submission> = Vec::new();
    let mut i: usize = 0;
    proof {
        assert(sv.subrange(0, 0) =~= Seq::<SubmissionView>::empty());
        assert(views(linked@) =~= Seq::<SubmissionView>::empty());
    }
    while i < scanned.len()
        invariant
            i <= scanned@.len(),
            sv == views(scanned@),
            views(linked@) == with_link(sv.subrange(0, i as int)),
        decreases scanned@.len() - i,
    {
        proof {
            assert(sv.subrange(0, i + 1 as int).drop_last() =~= sv.subrange(0, i as int));
            assert(sv.subrange(0, i + 1 as int).last() == scanned@[i as int]@);
        }
        if !scanned[i].youtube_url.as_str().is_empty() {
            let d = scanned[i].duplicate();
            proof {
                lemma_views_push(linked@, d);
            }
            linked.push(d);
        }
        i = i + 1;
    }
    proof {
        assert(sv.subrange(0, i as int) =~= sv);
    }
    merge_new(existing, &linked)
}

} // verus!
