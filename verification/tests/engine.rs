//! Tests of the hybrid search engine.

use sift_core::compaction::TableFile;
use sift_core::engine::{Engine, EngineError, SearchHit};
use sift_core::lsm::load_table;
use sift_core::record::{decode_record, encode_record, RecordError};
use sift_core::sstable::TableError;
use sift_core::store::StoreError;
use sift_core::text::{Corpus, Hit};
use sift_core::vector::{Metric, VectorError};
use sift_core::wal::{Op, Wal};

fn bits(v: &[f32]) -> Vec<u32> {
    v.iter().map(|x| x.to_bits()).collect()
}

fn dot(a: &[u32], b: &[u32]) -> f32 {
    a.iter()
        .zip(b)
        .map(|(x, y)| f32::from_bits(*x) * f32::from_bits(*y))
        .sum()
}

fn cosine(metric: Metric, query: &[u32], row: &[u32]) -> u32 {
    assert_eq!(metric, Metric::Cosine);
    let denom = dot(query, query).sqrt() * dot(row, row).sqrt();
    let score = if denom == 0.0 { 0.0 } else { dot(query, row) / denom };
    score.to_bits()
}

fn bm25(corpus: Corpus, hits: &[Hit]) -> u32 {
    let n = corpus.doc_count as f32;
    let avgdl = (corpus.total_doc_length as f32 / n).max(1.0);
    let mut score = 0.0f32;
    for h in hits {
        let (df, tf, dl) = (h.doc_freq as f32, h.term_freq as f32, h.doc_length as f32);
        let idf = ((n - df + 0.5) / (df + 0.5) + 1.0).ln();
        score += idf * (tf * 2.2) / (tf + 1.2 * (0.25 + 0.75 * (dl / avgdl)));
    }
    score.to_bits()
}

fn rrf(k_const: u32, ranks: &[usize]) -> u32 {
    let mut score = 0.0f32;
    for r in ranks {
        score += 1.0 / (f32::from_bits(k_const) + *r as f32 + 1.0);
    }
    score.to_bits()
}

/// An engine over a directory that is kept in memory: a log, and tables from the
/// newest to the oldest.
struct Db {
    engine: Engine,
    dim: usize,
    log: Vec<u8>,
    tables: Vec<(String, Vec<u8>)>,
}

fn loaded(tables: &[(String, Vec<u8>)]) -> Vec<TableFile> {
    tables
        .iter()
        .map(|(path, bytes)| load_table(path.clone(), bytes.clone()).unwrap())
        .collect()
}

impl Db {
    fn open(dim: usize) -> Self {
        let engine = Engine::open(Vec::new(), b"", dim).unwrap();
        Db { engine, dim, log: Vec::new(), tables: Vec::new() }
    }

    fn upsert(
        &mut self,
        id: u64,
        vector: &[f32],
        text: &str,
        blob: &[u8],
    ) -> Result<(), EngineError> {
        let v = bits(vector);
        assert!(self.engine.can_upsert(&v, text, blob));
        self.log
            .extend_from_slice(&self.engine.upsert_record(id, &v, text, blob));
        self.engine.upsert(id, &v, text, blob)
    }

    fn delete(&mut self, id: u64) {
        assert!(self.engine.can_delete());
        self.log.extend_from_slice(&self.engine.delete_record(id));
        self.engine.delete(id);
    }

    fn flush(&mut self) {
        let path = format!("{}.sst", self.tables.len());
        if let Some(t) = self.engine.store().flush_table(path.clone()) {
            self.tables.insert(0, (path, t.bytes.clone()));
            self.engine.install_flushed(t);
            self.log.clear();
        }
    }

    fn compact(&mut self) {
        let path = "merged.sst".to_string();
        assert!(self.engine.store().can_compact());
        let t = self.engine.store().compacted_table(path.clone()).unwrap();
        self.tables = vec![(path, t.bytes.clone())];
        self.engine.install_compacted(t);
    }

    fn restart(&mut self) {
        self.engine = Engine::open(loaded(&self.tables), &self.log, self.dim).unwrap();
    }

    fn query(&self, vector: &[f32], text: &str, k: usize) -> Result<Vec<SearchHit>, EngineError> {
        self.engine.query(&bits(vector), text, k, cosine, bm25, rrf)
    }
}

fn ids(hits: &[SearchHit]) -> Vec<u64> {
    hits.iter().map(|h| h.id).collect()
}

#[test]
fn hybrid_query_returns_and_fetches_blobs() {
    let mut engine = Db::open(3);
    engine
        .upsert(1, &[1.0, 0.0, 0.0], "rust database engine", b"doc-one")
        .unwrap();
    engine
        .upsert(2, &[0.0, 1.0, 0.0], "python web framework", b"doc-two")
        .unwrap();
    engine
        .upsert(
            3,
            &[0.9, 0.1, 0.0],
            "rust systems programming",
            b"doc-three",
        )
        .unwrap();

    let hits = engine.query(&[1.0, 0.0, 0.0], "rust database", 2).unwrap();
    assert!(!hits.is_empty());
    assert_eq!(hits[0].id, 1);
    assert_eq!(hits[0].blob, b"doc-one".to_vec());
}

#[test]
fn delete_removes_from_both_indexes() {
    let mut engine = Db::open(2);
    engine.upsert(1, &[1.0, 0.0], "hello world", b"x").unwrap();
    engine.delete(1);
    let hits = engine.query(&[1.0, 0.0], "hello", 5).unwrap();
    assert!(hits.is_empty());
    assert_eq!(engine.engine.get_blob(1).unwrap(), None);
}

#[test]
fn hybrid_search_survives_a_restart() {
    let mut engine = Db::open(3);
    engine
        .upsert(
            1,
            &[1.0, 0.0, 0.0],
            "hybrid search engine internals",
            b"blob-1",
        )
        .unwrap();
    engine
        .upsert(2, &[0.0, 1.0, 0.0], "unrelated cooking recipes", b"blob-2")
        .unwrap();
    engine
        .upsert(
            3,
            &[0.95, 0.05, 0.0],
            "search engine performance tuning",
            b"blob-3",
        )
        .unwrap();
    engine.restart();

    let hits = engine.query(&[1.0, 0.0, 0.0], "search engine", 2).unwrap();

    assert_eq!(hits.len(), 2);
    let ids: Vec<u64> = hits.iter().map(|h| h.id).collect();
    assert!(ids.contains(&1));
    assert!(ids.contains(&3));
    assert!(!ids.contains(&2));
}

#[test]
fn deleting_a_document_removes_it_from_hybrid_results_but_not_others() {
    let mut engine = Db::open(2);

    engine
        .upsert(1, &[1.0, 0.0], "alpha document about databases", b"a")
        .unwrap();
    engine
        .upsert(2, &[1.0, 0.0], "beta document about databases", b"b")
        .unwrap();
    engine.delete(1);

    let hits = engine.query(&[1.0, 0.0], "databases", 5).unwrap();
    let ids: Vec<u64> = hits.iter().map(|h| h.id).collect();
    assert_eq!(ids, vec![2]);
}

#[test]
fn upsert_overwrites_prior_vector_text_and_blob() {
    let mut engine = Db::open(2);

    engine
        .upsert(
            2,
            &[1.0, 0.0],
            "a distractor document about cars and trucks",
            b"distractor",
        )
        .unwrap();

    engine
        .upsert(1, &[1.0, 0.0], "old text about cars", b"old-blob")
        .unwrap();
    engine
        .upsert(1, &[0.0, 1.0], "new text about boats", b"new-blob")
        .unwrap();

    assert_eq!(
        engine.engine.get_blob(1).unwrap(),
        Some(b"new-blob".to_vec())
    );

    let hits = engine.query(&[1.0, 0.0], "cars", 5).unwrap();
    assert_eq!(
        hits[0].id,
        2,
        "distractor should now outrank doc 1 on its old attributes: {:?}",
        hits.iter().map(|h| h.id).collect::<Vec<_>>()
    );

    let hits = engine.query(&[0.0, 1.0], "boats", 5).unwrap();
    assert_eq!(hits[0].id, 1);
}

#[test]
fn queries_agree_before_and_after_flush_compaction_and_restart() {
    let mut db = Db::open(2);
    db.upsert(1, &[1.0, 0.0], "red apples", b"1").unwrap();
    db.upsert(2, &[0.0, 1.0], "green apples", b"2").unwrap();
    db.flush();
    db.upsert(3, &[0.5, 0.5], "red wine", b"3").unwrap();
    db.delete(2);
    db.upsert(1, &[0.9, 0.1], "red red apples", b"1b").unwrap();
    let answer = |db: &Db| -> Vec<(u64, u32, Vec<u8>)> {
        db.query(&[1.0, 0.2], "red apples", 5)
            .unwrap()
            .into_iter()
            .map(|h| (h.id, h.score, h.blob))
            .collect()
    };
    let before = answer(&db);
    assert_eq!(before.len(), 2);
    db.flush();
    assert_eq!(answer(&db), before);
    db.restart();
    assert_eq!(answer(&db), before);
    db.compact();
    assert_eq!(answer(&db), before);
    db.restart();
    assert_eq!(answer(&db), before);
    assert_eq!(db.engine.len(), 2);
    assert!(!db.engine.is_empty());
    assert!(db.engine.store().table_count() == 1);
}

#[test]
fn an_engine_counts_its_documents() {
    let mut db = Db::open(1);
    assert!(db.engine.is_empty());
    db.upsert(1, &[1.0], "one", b"1").unwrap();
    db.upsert(2, &[2.0], "two", b"2").unwrap();
    db.upsert(1, &[3.0], "one again", b"3").unwrap();
    assert_eq!(db.engine.len(), 2);
    db.delete(2);
    db.delete(9);
    assert_eq!(db.engine.len(), 1);
    db.restart();
    assert_eq!(db.engine.len(), 1);
    assert!(!db.engine.is_empty());
}

#[test]
fn documents_that_match_no_word_fill_the_list() {
    let mut db = Db::open(1);
    for id in 0..30 {
        db.upsert(id, &[1.0 + id as f32], if id == 3 { "word" } else { "other" }, b"x")
            .unwrap();
    }
    for k in [0, 1, 7, 30, 40] {
        let hits = db.query(&[1.0], "word", k).unwrap();
        assert_eq!(hits.len(), k.min(30));
        let mut seen = ids(&hits);
        seen.sort();
        seen.dedup();
        assert_eq!(seen.len(), hits.len());
        for pair in hits.windows(2) {
            assert!(f32::from_bits(pair[0].score) >= f32::from_bits(pair[1].score));
        }
    }
}

#[test]
fn queries_fill_their_list_after_a_refused_upsert() {
    let mut db = Db::open(2);
    for id in 0..5 {
        db.upsert(id, &[1.0, id as f32], "word", b"x").unwrap();
    }
    assert!(db.upsert(9, &[1.0], "word", b"refused").is_err());
    assert!(db.upsert(3, &[1.0], "word", b"refused too").is_err());
    assert_eq!(db.engine.len(), 5);
    let hits = db.query(&[1.0, 0.0], "word", 9).unwrap();
    let mut found = ids(&hits);
    found.sort();
    assert_eq!(found, vec![0, 1, 2, 3, 4]);
    for h in &hits {
        assert_eq!(db.engine.get_blob(h.id).unwrap(), Some(h.blob.clone()));
    }
    db.delete(3);
    assert_eq!(db.engine.len(), 4);
    db.delete(9);
    assert_eq!(db.engine.len(), 4);
    assert_eq!(db.query(&[1.0, 0.0], "word", 9).unwrap().len(), 4);
}

#[test]
fn an_engine_of_another_width_does_not_open() {
    let mut db = Db::open(2);
    db.upsert(1, &[1.0, 2.0], "one", b"1").unwrap();
    let err = Engine::open(Vec::new(), &db.log, 3).err().unwrap();
    assert!(matches!(
        err,
        EngineError::Vector(VectorError::DimensionMismatch { expected: 3, got: 2 })
    ));
    db.delete(1);
    assert!(Engine::open(Vec::new(), &db.log, 3).is_ok());
}

#[test]
fn any_run_of_operations_leaves_the_last_upserts() {
    let mut db = Db::open(1);
    db.upsert(1, &[1.0], "one", b"a").unwrap();
    db.upsert(2, &[2.0], "two", b"b").unwrap();
    db.flush();
    db.delete(1);
    db.upsert(3, &[3.0], "three", b"c").unwrap();
    db.flush();
    db.compact();
    db.restart();
    db.upsert(2, &[4.0], "two again", b"d").unwrap();
    db.restart();
    assert_eq!(db.engine.len(), 2);
    assert_eq!(db.engine.get_blob(1).unwrap(), None);
    assert_eq!(db.engine.get_blob(2).unwrap(), Some(b"d".to_vec()));
    assert_eq!(db.engine.get_blob(3).unwrap(), Some(b"c".to_vec()));
    assert_eq!(ids(&db.query(&[1.0], "again", 1).unwrap()), vec![2]);
}

#[test]
fn a_fused_hit_has_an_exact_score() {
    let mut db = Db::open(1);
    db.upsert(5, &[1.0], "word", b"blob").unwrap();
    let hits = db.query(&[1.0], "word", 1).unwrap();
    let expected: f32 = 1.0 / 61.0 + 1.0 / 61.0;
    assert_eq!((hits[0].id, hits[0].score), (5, expected.to_bits()));
    assert_eq!(hits[0].blob, b"blob".to_vec());
}

#[test]
fn a_query_returns_no_more_than_it_was_asked_for() {
    let mut db = Db::open(1);
    for id in 0..30u64 {
        db.upsert(id, &[1.0], "same words", b"").unwrap();
    }
    assert_eq!(db.query(&[1.0], "same", 3).unwrap().len(), 3);
    assert_eq!(db.query(&[1.0], "same", 25).unwrap().len(), 25);
    assert_eq!(db.query(&[1.0], "same", 100).unwrap().len(), 30);
    assert!(db.query(&[1.0], "same", 0).unwrap().is_empty());
    assert!(Db::open(1).query(&[1.0], "same", 3).unwrap().is_empty());
}

#[test]
fn candidates_reach_past_the_results_asked_for() {
    let mut db = Db::open(2);
    for id in 0..10u64 {
        db.upsert(id, &[1.0, 0.01 * id as f32], "other", b"").unwrap();
    }
    db.upsert(99, &[1.0, 0.5], "needle", b"both").unwrap();
    let hits = db.query(&[1.0, 0.0], "needle", 1).unwrap();
    assert_eq!(ids(&hits), vec![99]);
}

#[test]
fn vectors_of_another_width_are_rejected() {
    let mut db = Db::open(3);
    let err = db.upsert(1, &[1.0], "text", b"b").unwrap_err();
    assert!(matches!(
        err,
        EngineError::Vector(VectorError::DimensionMismatch { expected: 3, got: 1 })
    ));
    assert_eq!(err.message(), "vector error: expected 3-dim vector, got 1");
    assert_eq!(db.engine.len(), 0);
    assert_eq!(db.engine.get_blob(1).unwrap(), Some(b"b".to_vec()));
    let asked = db.query(&[1.0, 2.0], "text", 3).err().unwrap();
    assert!(matches!(
        asked,
        EngineError::Vector(VectorError::DimensionMismatch { expected: 3, got: 2 })
    ));
    let reopened = Engine::open(Vec::new(), &db.log, 3).err().unwrap();
    assert!(matches!(
        reopened,
        EngineError::Vector(VectorError::DimensionMismatch { expected: 3, got: 1 })
    ));
    assert!(Engine::open(Vec::new(), &db.log, 1).is_ok());
}

#[test]
fn keys_that_are_no_documents_are_passed_over() {
    let mut wal = Wal::new();
    wal.append(1, Op::Put, b"short", b"not a record");
    wal.append(
        2,
        Op::Put,
        &7u64.to_be_bytes(),
        &encode_record(&bits(&[2.0]), "seven", b"7"),
    );
    let log = wal.take_buffered();
    let engine = Engine::open(Vec::new(), &log, 1).unwrap();
    assert_eq!(engine.len(), 1);
    assert_eq!(engine.get_blob(7).unwrap(), Some(b"7".to_vec()));
}

#[test]
fn a_record_that_is_no_document_stops_the_engine_from_opening() {
    let mut wal = Wal::new();
    wal.append(1, Op::Put, &1u64.to_be_bytes(), b"abc");
    let log = wal.take_buffered();
    let err = Engine::open(Vec::new(), &log, 1).err().unwrap();
    assert!(matches!(err, EngineError::Corrupt(_)));
    assert_eq!(
        err.message(),
        "corrupt document record: truncated length prefix"
    );
}

#[test]
fn a_damaged_table_stops_the_engine_from_opening() {
    let mut db = Db::open(1);
    db.upsert(1, &[1.0], "x", b"y").unwrap();
    let t = db.engine.store().flush_table("1.sst".to_string()).unwrap();
    let short = TableFile { meta: t.meta, bytes: vec![0; 10] };
    let err = Engine::open(vec![short], b"", 1).err().unwrap();
    assert!(matches!(
        err,
        EngineError::Io(StoreError::Table(TableError::TooSmall))
    ));
    assert_eq!(err.message(), "io error: sstable too small");
    let from: EngineError = StoreError::Unordered.into();
    assert_eq!(from.message(), "io error: sstable records are out of order");
    let vector: EngineError = VectorError::DimensionMismatch { expected: 2, got: 30 }.into();
    assert_eq!(vector.message(), "vector error: expected 2-dim vector, got 30");
}

#[test]
fn hits_without_a_record_have_an_empty_blob() {
    let mut db = Db::open(1);
    db.upsert(1, &[1.0], "x", b"one").unwrap();
    let hits = db.engine.hits(&vec![(1, 9), (2, 8), (1, 7)], 2).unwrap();
    assert_eq!(ids(&hits), vec![1, 2]);
    assert_eq!(hits[0].blob, b"one".to_vec());
    assert!(hits[1].blob.is_empty());
    assert_eq!(hits[1].score, 8);
}

// ---------- records ----------

#[test]
fn records_have_their_documented_layout() {
    let record = encode_record(&bits(&[1.0]), "hi", b"xyz");
    assert_eq!(
        record,
        vec![
            1, 0, 0, 0, 0, 0, 0x80, 0x3f, 2, 0, 0, 0, b'h', b'i', 3, 0, 0, 0, b'x', b'y', b'z',
        ]
    );
}

#[test]
fn records_give_back_what_was_written() {
    for (vector, text, blob) in [
        (vec![], "", vec![]),
        (vec![1.5f32, -2.0, f32::NAN], "Grüße, 世界", vec![0u8, 255]),
    ] {
        let mut record = encode_record(&bits(&vector), text, &blob);
        let d = decode_record(&record).ok().unwrap();
        assert_eq!((d.vector, d.text.as_str(), d.blob), (bits(&vector), text, blob.clone()));
        record.push(9);
        assert!(decode_record(&record).is_ok());
    }
}

#[test]
fn every_way_a_record_can_be_cut_is_told() {
    let record = encode_record(&bits(&[1.0, 2.0]), "abc", b"de");
    let fault = |n: usize| decode_record(&record[..n]).err();
    assert_eq!(fault(3), Some(RecordError::TruncatedLength));
    assert_eq!(fault(11), Some(RecordError::TruncatedVector));
    assert_eq!(fault(15), Some(RecordError::TruncatedLength));
    assert_eq!(fault(18), Some(RecordError::TruncatedText));
    assert_eq!(fault(20), Some(RecordError::TruncatedLength));
    assert_eq!(fault(24), Some(RecordError::TruncatedBlob));
    assert_eq!(fault(25), None);

    let mut bad = encode_record(&[], "abc", b"");
    bad[9] = 0xff;
    assert_eq!(decode_record(&bad).err(), Some(RecordError::InvalidText));
    bad[9] = b'X';
    assert_eq!(decode_record(&bad).ok().unwrap().text, "aXc");

    assert_eq!(RecordError::TruncatedLength.message(), "truncated length prefix");
    assert_eq!(RecordError::TruncatedVector.message(), "truncated vector");
    assert_eq!(RecordError::TruncatedText.message(), "truncated text");
    assert_eq!(RecordError::InvalidText.message(), "text field is not valid utf-8");
    assert_eq!(RecordError::TruncatedBlob.message(), "truncated blob");
}
