//! In-memory vector store: the mirror of the persisted embedding records,
//! with insertion, deletion by id or by parent content, and similarity
//! search over precomputed scores.

use vstd::prelude::*;
use crate::ranking::{is_ranking, rank_by_score, similarity_key, key_of};
use crate::text::text_eq;

verus! {

/// One embedded chunk. Components of the embedding are kept as the bit
/// patterns of 32-bit IEEE-754 values.
pub struct VectorIndex {
    pub id: i64,
    pub content_id: i64,
    pub content_type: String,
    pub content: String,
    pub embedding_vector: Vec<u32>,
    pub model_name: String,
    pub chunk_index: i64,
    pub metadata: Option<String>,
    pub created_at: String,
}

/// What a [`VectorIndex`] holds, as mathematical values.
pub struct VectorEntryView {
    pub id: i64,
    pub content_id: i64,
    pub content_type: Seq<char>,
    pub content: Seq<char>,
    pub embedding: Seq<u32>,
    pub model_name: Seq<char>,
    pub chunk_index: i64,
    pub metadata: Option<Seq<char>>,
    pub created_at: Seq<char>,
}

pub open spec fn opt_view(o: Option<String>) -> Option<Seq<char>> {
    match o {
        Some(s) => Some(s@),
        None => None,
    }
}

impl View for VectorIndex {
    type V = VectorEntryView;

    open spec fn view(&self) -> VectorEntryView {
        VectorEntryView {
            id: self.id,
            content_id: self.content_id,
            content_type: self.content_type@,
            content: self.content@,
            embedding: self.embedding_vector@,
            model_name: self.model_name@,
            chunk_index: self.chunk_index,
            metadata: opt_view(self.metadata),
            created_at: self.created_at@,
        }
    }
}

/// A copy of an optional string.
pub fn copy_opt(o: &Option<String>) -> (r: Option<String>)
    ensures
        opt_view(r) == opt_view(*o),
{
    match o {
        Some(s) => Some(s.clone()),
        None => None,
    }
}

/// A copy of a word vector.
pub fn copy_words(v: &Vec<u32>) -> (r: Vec<u32>)
    ensures
        r@ == v@,
{
    let mut out: Vec<u32> = Vec::new();
    let mut i: usize = 0;
    while i < v.len()
        invariant
            i <= v@.len(),
            out@ == v@.subrange(0, i as int),
        decreases v.len() - i,
    {
        out.push(v[i]);
        i = i + 1;
        assert(out@ =~= v@.subrange(0, i as int));
    }
    assert(v@.subrange(0, v@.len() as int) =~= v@);
    out
}

impl VectorIndex {
    /// A field-by-field copy.
    pub fn duplicate(&self) -> (r: VectorIndex)
        ensures
            r@ == self@,
    {
        VectorIndex {
            id: self.id,
            content_id: self.content_id,
            content_type: self.content_type.clone(),
            content: self.content.clone(),
            embedding_vector: copy_words(&self.embedding_vector),
            model_name: self.model_name.clone(),
            chunk_index: self.chunk_index,
            metadata: copy_opt(&self.metadata),
            created_at: self.created_at.clone(),
        }
    }
}

/// What a caller hands over to store one embedded chunk.
pub struct CreateVectorIndex {
    pub content_id: i64,
    pub content_type: String,
    pub content: String,
    pub embedding_vector: Vec<u32>,
    pub model_name: String,
    pub chunk_index: Option<i64>,
    pub metadata: Option<String>,
}

/// Why an insertion was refused.
#[derive(Debug, Clone, Copy, PartialEq, Eq, Structural)]
pub enum VectorStoreError {
    /// Every record id has been handed out.
    IdsExhausted,
    /// The model already has vectors of another dimensionality.
    DimensionMismatch,
}

/// All vectors of one model have the same number of components.
pub open spec fn dims_agree(s: Seq<VectorEntryView>) -> bool {
    forall|i: int, j: int|
        0 <= i < s.len() && 0 <= j < s.len() && #[trigger] s[i].model_name == #[trigger] s[j].model_name
            ==> s[i].embedding.len() == s[j].embedding.len()
}

/// Some vector of `model` in `s` does not have `dim` components.
pub open spec fn conflicts(s: Seq<VectorEntryView>, model: Seq<char>, dim: int) -> bool {
    exists|i: int| 0 <= i < s.len() && #[trigger] s[i].model_name == model && s[i].embedding.len() != dim
}

proof fn lemma_dims_agree_remove(s: Seq<VectorEntryView>, k: int)
    requires
        dims_agree(s),
        0 <= k < s.len(),
    ensures
        dims_agree(s.remove(k)),
{
    let t = s.remove(k);
    assert forall|i: int, j: int|
        0 <= i < t.len() && 0 <= j < t.len() && #[trigger] t[i].model_name == #[trigger] t[j].model_name
            implies t[i].embedding.len() == t[j].embedding.len() by {
        let ii = if i < k { i } else { i + 1 };
        let jj = if j < k { j } else { j + 1 };
        assert(t[i] == s[ii]);
        assert(t[j] == s[jj]);
    }
}

proof fn lemma_dims_agree_push(s: Seq<VectorEntryView>, e: VectorEntryView)
    requires
        dims_agree(s),
        !conflicts(s, e.model_name, e.embedding.len() as int),
    ensures
        dims_agree(s.push(e)),
{
    let t = s.push(e);
    assert forall|i: int, j: int|
        0 <= i < t.len() && 0 <= j < t.len() && #[trigger] t[i].model_name == #[trigger] t[j].model_name
            implies t[i].embedding.len() == t[j].embedding.len() by {
        if i < s.len() && j < s.len() {
            assert(t[i] == s[i] && t[j] == s[j]);
        } else if i < s.len() {
            assert(t[i] == s[i]);
            assert(!(s[i].model_name == e.model_name && s[i].embedding.len() != e.embedding.len()));
        } else if j < s.len() {
            assert(t[j] == s[j]);
            assert(!(s[j].model_name == e.model_name && s[j].embedding.len() != e.embedding.len()));
        }
    }
}

/// The records of `s` that do not belong to content `(cid, ct)`, in order.
pub open spec fn without_content(s: Seq<VectorEntryView>, cid: i64, ct: Seq<char>) -> Seq<
    VectorEntryView,
>
    decreases s.len(),
{
    if s.len() == 0 {
        s
    } else {
        let r = without_content(s.drop_last(), cid, ct);
        if s.last().content_id == cid && s.last().content_type == ct {
            r
        } else {
            r.push(s.last())
        }
    }
}

/// The records of `s` whose id is not `id`, in order.
pub open spec fn without_id(s: Seq<VectorEntryView>, id: i64) -> Seq<VectorEntryView>
    decreases s.len(),
{
    if s.len() == 0 {
        s
    } else {
        let r = without_id(s.drop_last(), id);
        if s.last().id == id {
            r
        } else {
            r.push(s.last())
        }
    }
}

/// The store: records in insertion order, ids strictly increasing and below
/// the next id to hand out.
pub struct VectorStore {
    entries: Vec<VectorIndex>,
    next_id: i64,
}

impl View for VectorStore {
    type V = Seq<VectorEntryView>;

    closed spec fn view(&self) -> Seq<VectorEntryView> {
        self.entries@.map_values(|e: VectorIndex| e@)
    }
}

impl VectorStore {
    /// The id the next insertion receives.
    pub closed spec fn next_id_spec(&self) -> i64 {
        self.next_id
    }

    /// Ids are positive, strictly increasing in insertion order, and below
    /// the next id; all vectors of one model have the same dimensionality.
    pub closed spec fn wf(&self) -> bool {
        &&& dims_agree(self@)
        &&& self.next_id >= 1
        &&& forall|i: int|
            0 <= i < self.entries@.len() ==> 1 <= #[trigger] self.entries@[i].id < self.next_id
        &&& forall|i: int, j: int|
            0 <= i < j < self.entries@.len() ==> #[trigger] self.entries@[i].id
                < #[trigger] self.entries@[j].id
    }

    /// An empty store.
    pub fn new() -> (r: VectorStore)
        ensures
            r.wf(),
            r@ == Seq::<VectorEntryView>::empty(),
            r.next_id_spec() == 1,
    {
        let r = VectorStore { entries: Vec::new(), next_id: 1 };
        assert(r@ =~= Seq::<VectorEntryView>::empty());
        r
    }

    /// A store rebuilt from persisted records, given in increasing id order;
    /// a record whose id does not exceed the previous one, or is the largest
    /// `i64`, or whose dimensionality disagrees with its model's records
    /// kept so far, is skipped.
    pub fn from_records(records: Vec<VectorIndex>) -> (r: VectorStore)
        ensures
            r.wf(),
            r@.len() <= records@.len(),
            forall|i: int| 0 <= i < r@.len() ==> records@.map_values(|e: VectorIndex| e@).contains(
                #[trigger] r@[i],
            ),
    {
        let mut s = VectorStore::new();
        let mut rest = records;
        let ghost orig = rest@;
        let mut remaining: Vec<VectorIndex> = Vec::new();
        // Reverse so that popping yields the records in their given order.
        while rest.len() > 0
            invariant
                remaining@.len() + rest@.len() == orig.len(),
                rest@ == orig.subrange(0, rest@.len() as int),
                forall|k: int|
                    0 <= k < remaining@.len() ==> #[trigger] remaining@[k] == orig[orig.len() - 1
                        - k],
            decreases rest@.len(),
        {
            let e = rest.pop().unwrap();
            remaining.push(e);
            assert(rest@ =~= orig.subrange(0, rest@.len() as int));
        }
        while remaining.len() > 0
            invariant
                s.wf(),
                s@.len() <= orig.len() - remaining@.len(),
                remaining@.len() <= orig.len(),
                forall|k: int|
                    0 <= k < remaining@.len() ==> #[trigger] remaining@[k] == orig[orig.len() - 1
                        - k],
                forall|k: int|
                    0 <= k < s@.len() ==> orig.map_values(|e: VectorIndex| e@).contains(
                        #[trigger] s@[k],
                    ),
            decreases remaining@.len(),
        {
            let ghost pos = orig.len() - remaining@.len();
            let e = remaining.pop().unwrap();
            assert(e == orig[pos]);
            assert(orig.map_values(|e: VectorIndex| e@)[pos] == e@);
            if e.id >= s.next_id && e.id < i64::MAX && !s.has_conflict(e.model_name.as_str(), e.embedding_vector.len()) {
                let ghost old_s = s@;
                s.next_id = e.id + 1;
                s.entries.push(e);
                assert(s@ =~= old_s.push(e@));
                proof {
                    lemma_dims_agree_push(old_s, e@);
                }
            }
        }
        s
    }

    /// Number of stored records.
    pub fn len(&self) -> (r: usize)
        ensures
            r == self@.len(),
    {
        self.entries.len()
    }

    /// The stored records, in insertion order.
    pub fn entries(&self) -> (r: &Vec<VectorIndex>)
        ensures
            r@.map_values(|e: VectorIndex| e@) == self@,
    {
        &self.entries
    }

    /// Whether the store holds a vector of `model` whose dimensionality is
    /// not `dim`.
    pub fn has_conflict(&self, model: &str, dim: usize) -> (r: bool)
        ensures
            r == conflicts(self@, model@, dim as int),
    {
        let mut i: usize = 0;
        while i < self.entries.len()
            invariant
                i <= self@.len(),
                self@ == self.entries@.map_values(|e: VectorIndex| e@),
                forall|k: int| 0 <= k < i ==> !(#[trigger] self@[k].model_name == model@ && self@[k].embedding.len() != dim),
            decreases self@.len() - i,
        {
            assert(self@[i as int] == self.entries@[i as int]@);
            if text_eq(self.entries[i].model_name.as_str(), model) && self.entries[i].embedding_vector.len() != dim {
                assert(self@[i as int].model_name == model@ && self@[i as int].embedding.len() != dim);
                return true;
            }
            i = i + 1;
        }
        false
    }

    /// Stores one chunk under a fresh id, larger than every id in the
    /// store, and returns a copy of the stored record. A vector whose
    /// dimensionality differs from that of the model's stored vectors is
    /// refused.
    pub fn create_vector_entry(&mut self, entry: CreateVectorIndex, created_at: String) -> (r:
        Result<VectorIndex, VectorStoreError>)
        requires
            old(self).wf(),
        ensures
            final(self).wf(),
            old(self).next_id_spec() == i64::MAX ==> r == Err::<VectorIndex, VectorStoreError>(VectorStoreError::IdsExhausted),
            old(self).next_id_spec() != i64::MAX && conflicts(old(self)@, entry.model_name@, entry.embedding_vector@.len() as int)
                ==> r == Err::<VectorIndex, VectorStoreError>(VectorStoreError::DimensionMismatch),
            r is Ok <==> (old(self).next_id_spec() != i64::MAX && !conflicts(old(self)@, entry.model_name@, entry.embedding_vector@.len() as int)),
            r is Err ==> final(self)@ == old(self)@,
            r matches Ok(rec) ==> {
                &&& final(self)@ == old(self)@.push(rec@)
                &&& rec.id == old(self).next_id_spec()
                &&& final(self).next_id_spec() == rec.id + 1
                &&& forall|i: int| 0 <= i < old(self)@.len() ==> #[trigger] old(self)@[i].id < rec.id
                &&& rec.content_id == entry.content_id
                &&& rec@.content_type == entry.content_type@
                &&& rec@.content == entry.content@
                &&& rec@.embedding == entry.embedding_vector@
                &&& rec@.model_name == entry.model_name@
                &&& rec.chunk_index == (match entry.chunk_index {
                    Some(c) => c,
                    None => 0,
                })
                &&& rec@.metadata == opt_view(entry.metadata)
                &&& rec@.created_at == created_at@
            },
    {
        if self.next_id == i64::MAX {
            return Err(VectorStoreError::IdsExhausted);
        }
        if self.has_conflict(entry.model_name.as_str(), entry.embedding_vector.len()) {
            return Err(VectorStoreError::DimensionMismatch);
        }
        let id = self.next_id;
        let chunk_index = match entry.chunk_index {
            Some(c) => c,
            None => 0,
        };
        let rec = VectorIndex {
            id,
            content_id: entry.content_id,
            content_type: entry.content_type,
            content: entry.content,
            embedding_vector: entry.embedding_vector,
            model_name: entry.model_name,
            chunk_index,
            metadata: entry.metadata,
            created_at,
        };
        let copy = rec.duplicate();
        let ghost old_v = self@;
        self.entries.push(rec);
        self.next_id = id + 1;
        assert(self@ =~= old_v.push(copy@));
        proof {
            lemma_dims_agree_push(old_v, copy@);
        }
        Ok(copy)
    }

    /// Removes the record with this id; tells whether one was there.
    pub fn delete_vector_entry(&mut self, id: i64) -> (r: bool)
        requires
            old(self).wf(),
        ensures
            final(self).wf(),
            final(self)@ == without_id(old(self)@, id),
            final(self).next_id_spec() == old(self).next_id_spec(),
            r == exists|i: int| 0 <= i < old(self)@.len() && #[trigger] old(self)@[i].id == id,
    {
        let ghost orig = self@;
        let total = self.entries.len();
        let mut i: usize = 0;
        let mut consumed: usize = 0;
        let mut found = false;
        while i < self.entries.len()
            invariant
                self.wf(),
                self.next_id_spec() == old(self).next_id_spec(),
                orig == old(self)@,
                total == orig.len(),
                consumed <= orig.len(),
                i <= self@.len(),
                self@ == without_id(orig.subrange(0, consumed as int), id) + orig.subrange(
                    consumed as int,
                    orig.len() as int,
                ),
                i == without_id(orig.subrange(0, consumed as int), id).len(),
                found == exists|k: int| 0 <= k < consumed && #[trigger] orig[k].id == id,
            decreases self@.len() - i,
        {
            let ghost before = self@;
            let ghost pre = orig.subrange(0, consumed as int);
            let ghost cur = orig.subrange(0, consumed + 1);
            assert(cur.drop_last() =~= pre);
            assert(self@[i as int] == orig[consumed as int]);
            if self.entries[i].id == id {
                let _gone = self.entries.remove(i);
                assert(self@ =~= before.remove(i as int));
                proof {
                    lemma_dims_agree_remove(before, i as int);
                }
                found = true;
                assert(self@ =~= without_id(cur, id) + orig.subrange(consumed + 1, orig.len() as int));
            } else {
                i = i + 1;
                assert(self@ =~= without_id(cur, id) + orig.subrange(consumed + 1, orig.len() as int));
            }
            consumed = consumed + 1;
            assert(found == exists|k: int| 0 <= k < consumed && #[trigger] orig[k].id == id) by {
                if found && !(exists|k: int| 0 <= k < consumed - 1 && #[trigger] orig[k].id == id) {
                    assert(orig[consumed - 1].id == id);
                }
            }
        }
        assert(orig.subrange(0, consumed as int) =~= orig) by {
            lemma_without_id_len(orig.subrange(0, consumed as int), id);
        }
        found
    }

    /// Removes every chunk of content `(content_id, content_type)` and
    /// returns how many were removed.
    pub fn delete_content_vectors(&mut self, content_id: i64, content_type: &str) -> (r: usize)
        requires
            old(self).wf(),
        ensures
            final(self).wf(),
            final(self)@ == without_content(old(self)@, content_id, content_type@),
            final(self).next_id_spec() == old(self).next_id_spec(),
            r == old(self)@.len() - final(self)@.len(),
    {
        let ghost orig = self@;
        let ghost ct = content_type@;
        let total = self.entries.len();
        let mut i: usize = 0;
        let mut consumed: usize = 0;
        let mut removed: usize = 0;
        while i < self.entries.len()
            invariant
                self.wf(),
                self.next_id_spec() == old(self).next_id_spec(),
                orig == old(self)@,
                ct == content_type@,
                total == orig.len(),
                consumed <= orig.len(),
                i <= self@.len(),
                self@ == without_content(orig.subrange(0, consumed as int), content_id, ct)
                    + orig.subrange(consumed as int, orig.len() as int),
                i == without_content(orig.subrange(0, consumed as int), content_id, ct).len(),
                removed == consumed - i,
            decreases self@.len() - i,
        {
            let ghost before = self@;
            let ghost pre = orig.subrange(0, consumed as int);
            let ghost cur = orig.subrange(0, consumed + 1);
            assert(cur.drop_last() =~= pre);
            assert(self@[i as int] == orig[consumed as int]);
            let same_type = text_eq(self.entries[i].content_type.as_str(), content_type);
            if self.entries[i].content_id == content_id && same_type {
                let _gone = self.entries.remove(i);
                assert(self@ =~= before.remove(i as int));
                proof {
                    lemma_dims_agree_remove(before, i as int);
                }
                removed = removed + 1;
                assert(self@ =~= without_content(cur, content_id, ct) + orig.subrange(
                    consumed + 1,
                    orig.len() as int,
                ));
            } else {
                i = i + 1;
                assert(self@ =~= without_content(cur, content_id, ct) + orig.subrange(
                    consumed + 1,
                    orig.len() as int,
                ));
            }
            consumed = consumed + 1;
        }
        proof {
            lemma_without_content_len(orig.subrange(0, consumed as int), content_id, ct);
        }
        assert(orig.subrange(0, consumed as int) =~= orig);
        removed
    }
}

/// Deleting by content removes exactly the chunks of that content: nothing
/// left belongs to it, every record of other content stays, and nothing new
/// appears.
pub proof fn lemma_delete_by_content(s: Seq<VectorEntryView>, cid: i64, ct: Seq<char>)
    ensures
        forall|i: int|
            0 <= i < without_content(s, cid, ct).len() ==> !(#[trigger] without_content(
                s,
                cid,
                ct,
            )[i].content_id == cid && without_content(s, cid, ct)[i].content_type == ct),
        forall|i: int|
            0 <= i < s.len() && !(s[i].content_id == cid && s[i].content_type == ct)
                ==> without_content(s, cid, ct).contains(#[trigger] s[i]),
        forall|i: int|
            0 <= i < without_content(s, cid, ct).len() ==> s.contains(
                #[trigger] without_content(s, cid, ct)[i],
            ),
    decreases s.len(),
{
    if s.len() > 0 {
        let p = s.drop_last();
        lemma_delete_by_content(p, cid, ct);
        let r = without_content(p, cid, ct);
        let w = without_content(s, cid, ct);
        assert forall|i: int|
            0 <= i < s.len() && !(s[i].content_id == cid && s[i].content_type == ct) implies w.contains(
            #[trigger] s[i],
        ) by {
            if i < s.len() - 1 {
                assert(p[i] == s[i]);
                let k = choose|k: int| 0 <= k < r.len() && r[k] == p[i];
                assert(w[k] == r[k]);
            } else {
                assert(w[w.len() - 1] == s[i]);
            }
        }
        assert forall|i: int| 0 <= i < w.len() implies s.contains(#[trigger] w[i]) by {
            if i < r.len() {
                assert(w[i] == r[i]);
                assert(p.contains(r[i]));
                let k = choose|k: int| 0 <= k < p.len() && p[k] == r[i];
                assert(s[k] == p[k]);
            } else {
                assert(s[s.len() - 1] == w[i]);
            }
        }
        assert forall|i: int| 0 <= i < w.len() implies !(#[trigger] w[i].content_id == cid
            && w[i].content_type == ct) by {
            if i < r.len() {
                assert(w[i] == r[i]);
            }
        }
    }
}

/// One hit of a similarity search. `similarity_score` is the bit pattern of
/// the 32-bit score.
pub struct SimilaritySearchResult {
    pub id: i64,
    pub content_id: i64,
    pub content_type: String,
    pub content: String,
    pub similarity_score: u32,
    pub metadata: Option<String>,
}

/// Summary of the store's contents.
pub struct VectorIndexStats {
    pub total_vectors: i64,
    pub models_used: Vec<String>,
    pub average_vector_dimension: Option<usize>,
    pub last_updated: Option<String>,
}

/// How many records of `s` have an embedding of `dim` components.
pub open spec fn dim_count(s: Seq<VectorEntryView>, dim: int) -> int
    decreases s.len(),
{
    if s.len() == 0 {
        0
    } else {
        dim_count(s.drop_last(), dim) + if s.last().embedding.len() == dim {
            1int
        } else {
            0int
        }
    }
}

/// The texts of a sequence of strings.
pub open spec fn names_of(v: Seq<String>) -> Seq<Seq<char>> {
    v.map_values(|s: String| s@)
}

/// The model names of the records, in order.
pub open spec fn model_names(s: Seq<VectorEntryView>) -> Seq<Seq<char>> {
    s.map_values(|e: VectorEntryView| e.model_name)
}

/// The order keys of a sequence of score bit patterns.
pub open spec fn keys_of(bits: Seq<u32>) -> Seq<u128> {
    bits.map_values(|b: u32| key_of(b) as u128)
}

/// `hit` reports record `e` with score bits `score`.
pub open spec fn reports(hit: SimilaritySearchResult, e: VectorEntryView, score: u32) -> bool {
    &&& hit.id == e.id
    &&& hit.content_id == e.content_id
    &&& hit.content_type@ == e.content_type
    &&& hit.content@ == e.content
    &&& hit.similarity_score == score
    &&& opt_view(hit.metadata) == e.metadata
}

impl VectorStore {
    /// Ranks the stored records by their scores (one score per record, in
    /// store order, as bit patterns of 32-bit values): records scoring at
    /// least the threshold, best first, ties in insertion order, at most
    /// `limit` of them.
    pub fn similarity_search(&self, score_bits: &Vec<u32>, threshold_bits: u32, limit: usize) -> (r:
        Vec<SimilaritySearchResult>)
        requires
            score_bits@.len() == self@.len(),
        ensures
            exists|order: Seq<usize>|
                {
                    &&& #[trigger] is_ranking(keys_of(score_bits@), key_of(threshold_bits) as u128, limit as int, order)
                    &&& order.len() == r@.len()
                    &&& forall|i: int|
                        0 <= i < order.len() ==> reports(
                            #[trigger] r@[i],
                            self@[order[i] as int],
                            score_bits@[order[i] as int],
                        )
                },
    {
        let mut keys: Vec<u128> = Vec::new();
        let mut i: usize = 0;
        while i < score_bits.len()
            invariant
                i <= score_bits@.len(),
                keys@ == keys_of(score_bits@).subrange(0, i as int),
            decreases score_bits.len() - i,
        {
            keys.push(similarity_key(score_bits[i]) as u128);
            i = i + 1;
            assert(keys@ =~= keys_of(score_bits@).subrange(0, i as int));
        }
        assert(keys@ =~= keys_of(score_bits@));
        let order = rank_by_score(&keys, similarity_key(threshold_bits) as u128, limit);
        let mut out: Vec<SimilaritySearchResult> = Vec::new();
        let mut k: usize = 0;
        while k < order.len()
            invariant
                is_ranking(keys@, key_of(threshold_bits) as u128, limit as int, order@),
                keys@ == keys_of(score_bits@),
                score_bits@.len() == self@.len(),
                self@ == self.entries@.map_values(|e: VectorIndex| e@),
                k <= order@.len(),
                out@.len() == k,
                forall|j: int|
                    0 <= j < k ==> reports(
                        #[trigger] out@[j],
                        self@[order@[j] as int],
                        score_bits@[order@[j] as int],
                    ),
            decreases order.len() - k,
        {
            let p = order[k];
            assert(p < keys@.len());
            let e = &self.entries[p];
            out.push(
                SimilaritySearchResult {
                    id: e.id,
                    content_id: e.content_id,
                    content_type: e.content_type.clone(),
                    content: e.content.clone(),
                    similarity_score: score_bits[p],
                    metadata: copy_opt(&e.metadata),
                },
            );
            k = k + 1;
        }
        out
    }

    /// Count of records, the distinct model names in first-seen order, the
    /// most common dimensionality (earliest record on a tie), and the
    /// creation time of the latest record.
    pub fn get_vector_stats(&self) -> (r: VectorIndexStats)
        ensures
            r.total_vectors as int == if self@.len() <= i64::MAX as int {
                self@.len() as int
            } else {
                i64::MAX as int
            },
            names_of(r.models_used@).no_duplicates(),
            forall|i: int|
                0 <= i < r.models_used@.len() ==> model_names(self@).contains(
                    #[trigger] r.models_used@[i]@,
                ),
            forall|j: int|
                0 <= j < self@.len() ==> names_of(r.models_used@).contains(
                    #[trigger] self@[j].model_name,
                ),
            self@.len() == 0 <==> r.average_vector_dimension is None,
            r.average_vector_dimension matches Some(d) ==> (exists|j: int|
                0 <= j < self@.len() && #[trigger] self@[j].embedding.len() == d) && forall|j: int|
                0 <= j < self@.len() ==> dim_count(self@, d as int) >= dim_count(
                    self@,
                    #[trigger] self@[j].embedding.len() as int,
                ),
            self@.len() == 0 <==> r.last_updated is None,
            r.last_updated matches Some(t) ==> t@ == self@.last().created_at,
    {
        let n = self.entries.len();
        let n64 = n as u64;
        let total: i64 = if n64 <= 0x7fff_ffff_ffff_ffffu64 {
            n64 as i64
        } else {
            i64::MAX
        };
        let mut models: Vec<String> = Vec::new();
        let mut best_dim: usize = 0;
        let mut best_count: usize = 0;
        let mut i: usize = 0;
        while i < n
            invariant
                n == self@.len(),
                self@ == self.entries@.map_values(|e: VectorIndex| e@),
                i <= n,
                names_of(models@).no_duplicates(),
                forall|a: int|
                    0 <= a < models@.len() ==> model_names(self@).contains(#[trigger] models@[a]@),
                forall|j: int| 0 <= j < i ==> names_of(models@).contains(#[trigger] self@[j].model_name),
                i > 0 ==> best_count as int == dim_count(self@, best_dim as int),
                i > 0 ==> exists|j: int| 0 <= j < i && #[trigger] self@[j].embedding.len() == best_dim,
                forall|j: int|
                    0 <= j < i ==> best_count as int >= dim_count(
                        self@,
                        #[trigger] self@[j].embedding.len() as int,
                    ),
            decreases n - i,
        {
            let e = &self.entries[i];
            assert(e@ == self@[i as int]);
            let mut seen = false;
            let mut a: usize = 0;
            while a < models.len()
                invariant
                    a <= models@.len(),
                    seen == names_of(models@).subrange(0, a as int).contains(e.model_name@),
                decreases models.len() - a,
            {
                let ghost pre = names_of(models@).subrange(0, a as int);
                let ghost cur = names_of(models@).subrange(0, a + 1);
                assert(cur =~= pre.push(models@[a as int]@));
                if text_eq(models[a].as_str(), e.model_name.as_str()) {
                    seen = true;
                    assert(cur[a as int] == e.model_name@);
                }
                a = a + 1;
            }
            assert(names_of(models@).subrange(0, models@.len() as int) =~= names_of(models@));
            let ghost before = models@;
            if !seen {
                models.push(e.model_name.clone());
                assert(names_of(models@) =~= names_of(before).push(e.model_name@));
                assert(model_names(self@)[i as int] == e.model_name@);
                assert forall|x: int| 0 <= x < models@.len() implies model_names(self@).contains(
                    #[trigger] models@[x]@,
                ) by {
                    if x < before.len() {
                        assert(models@[x] == before[x]);
                    }
                }
                assert forall|j: int| 0 <= j < i + 1 implies names_of(models@).contains(
                    #[trigger] self@[j].model_name,
                ) by {
                    if j < i {
                        let x = choose|x: int|
                            0 <= x < names_of(before).len() && names_of(before)[x]
                                == self@[j].model_name;
                        assert(names_of(models@)[x] == names_of(before)[x]);
                    } else {
                        assert(names_of(models@)[before.len() as int] == self@[j].model_name);
                    }
                }
            }
            let dim = e.embedding_vector.len();
            let mut c: usize = 0;
            let mut k: usize = 0;
            while k < n
                invariant
                    n == self@.len(),
                    self@ == self.entries@.map_values(|e: VectorIndex| e@),
                    k <= n,
                    c as int == dim_count(self@.subrange(0, k as int), dim as int),
                    c <= k,
                decreases n - k,
            {
                assert(self@.subrange(0, k + 1).drop_last() =~= self@.subrange(0, k as int));
                if self.entries[k].embedding_vector.len() == dim {
                    c = c + 1;
                }
                k = k + 1;
            }
            assert(self@.subrange(0, n as int) =~= self@);
            assert(dim == self@[i as int].embedding.len());
            if i == 0 || c > best_count {
                best_dim = dim;
                best_count = c;
                assert(self@[i as int].embedding.len() == best_dim);
            }
            i = i + 1;
        }
        let last_updated = if n > 0 {
            Some(self.entries[n - 1].created_at.clone())
        } else {
            None
        };
        let avg = if n > 0 {
            Some(best_dim)
        } else {
            None
        };
        VectorIndexStats {
            total_vectors: total,
            models_used: models,
            average_vector_dimension: avg,
            last_updated,
        }
    }
}

proof fn lemma_without_id_len(s: Seq<VectorEntryView>, id: i64)
    ensures
        without_id(s, id).len() <= s.len(),
    decreases s.len(),
{
    if s.len() > 0 {
        lemma_without_id_len(s.drop_last(), id);
    }
}

proof fn lemma_without_content_len(s: Seq<VectorEntryView>, cid: i64, ct: Seq<char>)
    ensures
        without_content(s, cid, ct).len() <= s.len(),
    decreases s.len(),
{
    if s.len() > 0 {
        lemma_without_content_len(s.drop_last(), cid, ct);
    }
}

} // verus!
