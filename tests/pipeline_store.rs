use play_core::embedding::index_chunks;
use play_core::ranking::{rank_by_score, similarity_key};
use play_core::vector_codec::{decode_vector, encode_vector, VectorDecodeError};
use play_core::vector_store::{CreateVectorIndex, VectorStore};
use play_core::embedding::{chunk_entry, embedding_request};

fn cosine(a: &[f32], b: &[f32]) -> f32 {
    if a.len() != b.len() {
        return 0.0;
    }
    let dot: f32 = a.iter().zip(b.iter()).map(|(x, y)| x * y).sum();
    let na: f32 = a.iter().map(|x| x * x).sum::<f32>().sqrt();
    let nb: f32 = b.iter().map(|x| x * x).sum::<f32>().sqrt();
    if na == 0.0 || nb == 0.0 {
        0.0
    } else {
        dot / (na * nb)
    }
}

fn bits(v: &[f32]) -> Vec<u32> {
    v.iter().map(|x| x.to_bits()).collect()
}

fn entry(content_id: i64, content_type: &str, text: &str, v: &[f32]) -> CreateVectorIndex {
    CreateVectorIndex {
        content_id,
        content_type: content_type.to_string(),
        content: text.to_string(),
        embedding_vector: bits(v),
        model_name: "m".to_string(),
        chunk_index: None,
        metadata: None,
    }
}

#[test]
fn codec_round_trip() {
    let v = bits(&[1.0, -2.5, 0.0]);
    let b = encode_vector(&v);
    assert_eq!(b.len(), 12);
    assert_eq!(&b[0..4], &1.0f32.to_le_bytes());
    assert_eq!(decode_vector(&b).unwrap(), v);
}

#[test]
fn codec_rejects_ragged_blob() {
    assert_eq!(decode_vector(&vec![1, 2, 3]), Err(VectorDecodeError::RaggedLength));
    assert_eq!(decode_vector(&vec![]).unwrap(), Vec::<u32>::new());
}

#[test]
fn similarity_keys_follow_float_order() {
    let xs = [-1.0f32, -0.5, -0.0, 0.0, 0.25, 1.0];
    for w in xs.windows(2) {
        assert!(similarity_key(w[0].to_bits()) <= similarity_key(w[1].to_bits()));
    }
    assert_eq!(similarity_key((-0.0f32).to_bits()), similarity_key(0.0f32.to_bits()));
    assert!(similarity_key(0.5f32.to_bits()) < similarity_key(0.75f32.to_bits()));
}

#[test]
fn ranking_orders_thresholds_and_truncates() {
    let keys: Vec<u128> = vec![5, 9, 5, 1, 7];
    assert_eq!(rank_by_score(&keys, 0, 10), vec![1, 4, 0, 2, 3]);
    assert_eq!(rank_by_score(&keys, 5, 10), vec![1, 4, 0, 2]);
    assert_eq!(rank_by_score(&keys, 0, 2), vec![1, 4]);
    assert_eq!(rank_by_score(&keys, 0, 0), Vec::<usize>::new());
}

#[test]
fn insert_assigns_increasing_ids() {
    let mut s = VectorStore::new();
    let a = s.create_vector_entry(entry(1, "file", "x", &[1.0]), "t1".to_string()).unwrap();
    let b = s.create_vector_entry(entry(1, "file", "y", &[1.0]), "t2".to_string()).unwrap();
    assert!(a.id < b.id);
    assert_eq!(a.chunk_index, 0);
    assert_eq!(s.len(), 2);
}

#[test]
fn delete_by_content_removes_only_that_content() {
    let mut s = VectorStore::new();
    s.create_vector_entry(entry(1, "file", "a", &[1.0]), "t".to_string()).unwrap();
    s.create_vector_entry(entry(1, "doc", "b", &[1.0]), "t".to_string()).unwrap();
    s.create_vector_entry(entry(1, "file", "c", &[1.0]), "t".to_string()).unwrap();
    s.create_vector_entry(entry(2, "file", "d", &[1.0]), "t".to_string()).unwrap();
    assert_eq!(s.delete_content_vectors(1, "file"), 2);
    let left: Vec<&str> = s.entries().iter().map(|e| e.content.as_str()).collect();
    assert_eq!(left, vec!["b", "d"]);
}

#[test]
fn model_dimension_is_fixed() {
    let mut s = VectorStore::new();
    s.create_vector_entry(entry(1, "file", "a", &[1.0, 0.0]), "t".to_string()).unwrap();
    assert_eq!(
        s.create_vector_entry(entry(1, "file", "b", &[1.0]), "t".to_string()).err(),
        Some(play_core::vector_store::VectorStoreError::DimensionMismatch)
    );
    assert_eq!(s.len(), 1);
}

#[test]
fn delete_by_id() {
    let mut s = VectorStore::new();
    let a = s.create_vector_entry(entry(1, "file", "a", &[1.0]), "t".to_string()).unwrap();
    assert!(s.delete_vector_entry(a.id));
    assert!(!s.delete_vector_entry(a.id));
    assert_eq!(s.len(), 0);
}

#[test]
fn identical_chunks_are_most_similar() {
    let mut s = VectorStore::new();
    let v = [0.3f32, 0.4, 0.5];
    s.create_vector_entry(entry(1, "file", "same", &v), "t".to_string()).unwrap();
    s.create_vector_entry(entry(2, "file", "other", &[-0.5, 0.1, 0.0]), "t".to_string()).unwrap();
    s.create_vector_entry(entry(3, "file", "same too", &v), "t".to_string()).unwrap();
    let scores: Vec<u32> = s
        .entries()
        .iter()
        .map(|e| {
            let w: Vec<f32> = e.embedding_vector.iter().map(|b| f32::from_bits(*b)).collect();
            cosine(&v, &w).to_bits()
        })
        .collect();
    let hits = s.similarity_search(&scores, 0.0f32.to_bits(), usize::MAX);
    assert_eq!(hits.len(), 2);
    assert_eq!(hits[0].content, "same");
    assert_eq!(hits[1].content, "same too");
    assert!((f32::from_bits(hits[1].similarity_score) - 1.0).abs() < 1e-6);
}

#[test]
fn zero_threshold_unlimited_returns_all_sorted() {
    let mut s = VectorStore::new();
    for (i, x) in [0.2f32, 0.9, 0.5].iter().enumerate() {
        s.create_vector_entry(entry(i as i64, "file", "c", &[*x]), "t".to_string()).unwrap();
    }
    let scores: Vec<u32> = vec![0.2f32.to_bits(), 0.9f32.to_bits(), 0.5f32.to_bits()];
    let hits = s.similarity_search(&scores, 0.0f32.to_bits(), usize::MAX);
    let got: Vec<f32> = hits.iter().map(|h| f32::from_bits(h.similarity_score)).collect();
    assert_eq!(got, vec![0.9, 0.5, 0.2]);
}

#[test]
fn stats_report_models_dimension_and_latest() {
    let mut s = VectorStore::new();
    assert!(s.get_vector_stats().average_vector_dimension.is_none());
    s.create_vector_entry(entry(1, "file", "a", &[1.0, 2.0]), "t1".to_string()).unwrap();
    let mut e = entry(2, "file", "b", &[1.0, 2.0]);
    e.model_name = "n".to_string();
    s.create_vector_entry(e, "t2".to_string()).unwrap();
    let mut e3 = entry(3, "file", "c", &[1.0]);
    e3.model_name = "o".to_string();
    s.create_vector_entry(e3, "t3".to_string()).unwrap();
    let st = s.get_vector_stats();
    assert_eq!(st.total_vectors, 3);
    assert_eq!(st.models_used, vec!["m".to_string(), "n".to_string(), "o".to_string()]);
    assert_eq!(st.average_vector_dimension, Some(2));
    assert_eq!(st.last_updated, Some("t3".to_string()));
}

#[test]
fn chunk_entries_carry_length_metadata() {
    let e = chunk_entry(7, "cleaned_file", 2, "hello", vec![1, 2], None);
    assert_eq!(e.metadata, Some("chunk_length:5".to_string()));
    assert_eq!(e.model_name, "nomic-embed-text");
    assert_eq!(e.chunk_index, Some(2));
    let r = embedding_request(Some("other"), "x");
    assert_eq!(r.model, "other");
    assert_eq!(r.prompt, "x");
}

#[test]
fn embedded_chunks_are_stored_in_order() {
    let mut s = VectorStore::new();
    let chunks = vec!["one".to_string(), "two".to_string(), "three".to_string()];
    let embeddings = vec![Some(bits(&[1.0, 0.0])), None, Some(bits(&[0.0, 1.0]))];
    let stored = index_chunks(&mut s, 5, "cleaned_file", &chunks, &embeddings, None, "t");
    assert_eq!(stored.len(), 2);
    assert_eq!((stored[0].chunk_index, stored[0].content.as_str()), (0, "one"));
    assert_eq!((stored[1].chunk_index, stored[1].content.as_str()), (2, "three"));
    assert_eq!(stored[1].metadata, Some("chunk_length:5".to_string()));
    assert_eq!(s.len(), 2);
    let bad = vec![Some(bits(&[1.0]))];
    assert!(index_chunks(&mut s, 6, "x", &vec!["z".to_string()], &bad, None, "t").is_empty());
}
