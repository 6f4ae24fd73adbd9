//! The embedding collaborator's request, and how one embedded chunk
//! becomes a vector record.

use vstd::prelude::*;
use vstd::string::StringExecFns;
use crate::text::{int_text, i64_text, chars_of};
use crate::vector_store::{CreateVectorIndex, VectorIndex, VectorStore, VectorEntryView, conflicts, copy_words, opt_view};

verus! {

/// Model used when a caller names none.
pub open spec fn default_model() -> Seq<char> {
    "nomic-embed-text"@
}

/// Seconds an embedding call may take before it counts as failed.
pub const EMBEDDING_TIMEOUT_SECS: u64 = 30;

/// What is sent to the embedding service.
pub struct EmbeddingRequest {
    pub model: String,
    pub prompt: String,
}

/// The model to use: the one named, or the default.
pub fn model_or_default(model: Option<&str>) -> (r: String)
    ensures
        r@ == match model {
            Some(m) => m@,
            None => default_model(),
        },
{
    match model {
        Some(m) => String::from_str(m),
        None => String::from_str("nomic-embed-text"),
    }
}

/// The request that embeds `text` with `model` (or the default model).
pub fn embedding_request(model: Option<&str>, text: &str) -> (r: EmbeddingRequest)
    ensures
        r.model@ == match model {
            Some(m) => m@,
            None => default_model(),
        },
        r.prompt@ == text@,
{
    EmbeddingRequest { model: model_or_default(model), prompt: String::from_str(text) }
}

/// The record metadata of a chunk: `chunk_length:` and its length.
pub open spec fn chunk_metadata(chunk: Seq<char>) -> Seq<char> {
    "chunk_length:"@ + int_text(chunk.len() as int)
}

/// The vector record for chunk number `chunk_index` of content
/// `(content_id, content_type)`, embedded by `model` (or the default).
pub fn chunk_entry(
    content_id: i64,
    content_type: &str,
    chunk_index: usize,
    chunk: &str,
    embedding: Vec<u32>,
    model: Option<&str>,
) -> (r: CreateVectorIndex)
    requires
        chunk_index as int <= i64::MAX as int,
        chunk@.len() <= i64::MAX as int,
    ensures
        r.content_id == content_id,
        r.content_type@ == content_type@,
        r.content@ == chunk@,
        r.embedding_vector@ == embedding@,
        r.model_name@ == match model {
            Some(m) => m@,
            None => default_model(),
        },
        r.chunk_index == Some(chunk_index as i64),
        opt_view(r.metadata) == Some(chunk_metadata(chunk@)),
{
    let cs = chars_of(chunk);
    let mut meta = String::from_str("chunk_length:");
    let len_text = i64_text(cs.len() as i64);
    meta.append(len_text.as_str());
    CreateVectorIndex {
        content_id,
        content_type: String::from_str(content_type),
        content: String::from_str(chunk),
        embedding_vector: embedding,
        model_name: model_or_default(model),
        chunk_index: Some(chunk_index as i64),
        metadata: Some(meta),
    }
}

/// The model a caller names, or the default.
pub open spec fn model_named(model: Option<&str>) -> Seq<char> {
    match model {
        Some(m) => m@,
        None => default_model(),
    }
}

/// Number of chunks that got an embedding.
pub open spec fn embedded_count(es: Seq<Option<Vec<u32>>>) -> int
    decreases es.len(),
{
    if es.len() == 0 {
        0
    } else {
        embedded_count(es.drop_last()) + if es.last() is Some {
            1int
        } else {
            0int
        }
    }
}

/// Every embedding that is there has `d` components.
pub open spec fn all_of_dim(es: Seq<Option<Vec<u32>>>, d: int) -> bool {
    forall|i: int| 0 <= i < es.len() && (#[trigger] es[i]) is Some ==> es[i]->Some_0@.len() == d
}

proof fn lemma_conflicts_push(s: Seq<VectorEntryView>, x: VectorEntryView, m: Seq<char>, d: int)
    ensures
        conflicts(s.push(x), m, d) == (conflicts(s, m, d) || (x.model_name == m && x.embedding.len() != d)),
{
    let t = s.push(x);
    if conflicts(s, m, d) {
        let i = choose|i: int| 0 <= i < s.len() && #[trigger] s[i].model_name == m && s[i].embedding.len() != d;
        assert(t[i] == s[i]);
    }
    if x.model_name == m && x.embedding.len() != d {
        assert(t[s.len() as int] == x);
    }
    if conflicts(t, m, d) {
        let i = choose|i: int| 0 <= i < t.len() && #[trigger] t[i].model_name == m && t[i].embedding.len() != d;
        if i < s.len() {
            assert(s[i] == t[i]);
        }
    }
}

proof fn lemma_embedded_count_prefix(es: Seq<Option<Vec<u32>>>, i: int)
    requires
        0 <= i < es.len(),
    ensures
        embedded_count(es.subrange(0, i + 1)) == embedded_count(es.subrange(0, i)) + if es[i] is Some {
            1int
        } else {
            0int
        },
        0 <= embedded_count(es.subrange(0, i)) <= i,
    decreases i,
{
    assert(es.subrange(0, i + 1).drop_last() =~= es.subrange(0, i));
    if i > 0 {
        lemma_embedded_count_prefix(es, i - 1);
    }
}

/// Stores the embedded chunks of one content: chunk `i` with an embedding
/// becomes a record with chunk index `i`; a chunk without one, or whose
/// record the store refuses, is skipped. Returns the stored records. When
/// every embedding has the same length, the model has no vectors of another
/// length, and enough ids remain, every embedded chunk is stored.
pub fn index_chunks(
    store: &mut VectorStore,
    content_id: i64,
    content_type: &str,
    chunks: &Vec<String>,
    embeddings: &Vec<Option<Vec<u32>>>,
    model: Option<&str>,
    created_at: &str,
) -> (r: Vec<VectorIndex>)
    requires
        old(store).wf(),
        embeddings@.len() == chunks@.len(),
        chunks@.len() <= i64::MAX as int,
        forall|i: int| 0 <= i < chunks@.len() ==> (#[trigger] chunks@[i])@.len() <= i64::MAX as int,
    ensures
        final(store).wf(),
        final(store)@ == old(store)@ + r@.map_values(|v: VectorIndex| v@),
        forall|k: int|
            0 <= k < r@.len() ==> {
                let c = (#[trigger] r@[k]).chunk_index as int;
                &&& 0 <= c < chunks@.len()
                &&& embeddings@[c] is Some
                &&& r@[k]@.embedding == embeddings@[c]->Some_0@
                &&& r@[k]@.content == chunks@[c]@
                &&& r@[k].content_id == content_id
                &&& r@[k]@.content_type == content_type@
                &&& r@[k]@.model_name == model_named(model)
                &&& r@[k]@.metadata == Some(chunk_metadata(chunks@[c]@))
            },
        forall|a: int, b: int| 0 <= a < b < r@.len() ==> (#[trigger] r@[a]).chunk_index < (#[trigger] r@[b]).chunk_index,
        (exists|d: int| all_of_dim(embeddings@, d) && !conflicts(old(store)@, model_named(model), d))
            && old(store).next_id_spec() as int + chunks@.len() <= i64::MAX as int
            ==> r@.len() == embedded_count(embeddings@),
{
    let ghost s0 = store@;
    let ghost n0 = store.next_id_spec();
    let ghost good = (exists|d: int| all_of_dim(embeddings@, d) && !conflicts(s0, model_named(model), d))
        && n0 as int + chunks@.len() <= i64::MAX as int;
    let ghost d = if good { choose|d: int| all_of_dim(embeddings@, d) && !conflicts(s0, model_named(model), d) } else { 0 };
    let mut out: Vec<VectorIndex> = Vec::new();
    let mut i: usize = 0;
    while i < chunks.len()
        invariant
            store.wf(),
            i <= chunks@.len(),
            embeddings@.len() == chunks@.len(),
            chunks@.len() <= i64::MAX as int,
            forall|j: int| 0 <= j < chunks@.len() ==> (#[trigger] chunks@[j])@.len() <= i64::MAX as int,
            store@ == s0 + out@.map_values(|v: VectorIndex| v@),
            out@.len() <= i,
            forall|k: int|
                0 <= k < out@.len() ==> {
                    let c = (#[trigger] out@[k]).chunk_index as int;
                    &&& 0 <= c < i
                    &&& embeddings@[c] is Some
                    &&& out@[k]@.embedding == embeddings@[c]->Some_0@
                    &&& out@[k]@.content == chunks@[c]@
                    &&& out@[k].content_id == content_id
                    &&& out@[k]@.content_type == content_type@
                    &&& out@[k]@.model_name == model_named(model)
                    &&& out@[k]@.metadata == Some(chunk_metadata(chunks@[c]@))
                },
            forall|a: int, b: int| 0 <= a < b < out@.len() ==> (#[trigger] out@[a]).chunk_index < (#[trigger] out@[b]).chunk_index,
            good ==> {
                &&& all_of_dim(embeddings@, d)
                &&& !conflicts(store@, model_named(model), d)
                &&& out@.len() == embedded_count(embeddings@.subrange(0, i as int))
                &&& store.next_id_spec() == n0 + out@.len()
                &&& n0 as int + chunks@.len() <= i64::MAX as int
            },
        decreases chunks.len() - i,
    {
        proof {
            lemma_embedded_count_prefix(embeddings@, i as int);
        }
        match &embeddings[i] {
            None => {},
            Some(e) => {
                let entry = chunk_entry(content_id, content_type, i, chunks[i].as_str(), copy_words(e), model);
                let ghost before = store@;
                let ghost before_out = out@;
                match store.create_vector_entry(entry, String::from_str(created_at)) {
                    Ok(rec) => {
                        proof {
                            if good {
                                lemma_conflicts_push(before, rec@, model_named(model), d);
                            }
                        }
                        out.push(rec);
                        assert(out@.map_values(|v: VectorIndex| v@) =~= before_out.map_values(|v: VectorIndex| v@).push(out@[out@.len() - 1]@));
                        assert(store@ =~= s0 + out@.map_values(|v: VectorIndex| v@));
                        assert forall|a: int, b: int| 0 <= a < b < out@.len() implies (#[trigger] out@[a]).chunk_index < (#[trigger] out@[b]).chunk_index by {
                            if b < before_out.len() {
                                assert(out@[a] == before_out[a] && out@[b] == before_out[b]);
                            } else {
                                assert(out@[a] == before_out[a]);
                            }
                        }
                    },
                    Err(_) => {
                        proof {
                            if good {
                                assert(embeddings@[i as int] is Some);
                                assert(false);
                            }
                        }
                    },
                }
            },
        }
        i = i + 1;
    }
    assert(embeddings@.subrange(0, embeddings@.len() as int) =~= embeddings@);
    out
}

} // verus!
