use nanostore::fulltext::index::{
    FullTextConfig, PagedFullTextIndex, TextField, TextQuery,
};
use nanostore::fulltext::posting::{PostingEntry, PostingList};
use nanostore::fulltext::search::{top_documents, RankedDocument};
use nanostore::fulltext::tokenizer::{
    stem_lowercase, Tokenizer, TokenizerConfig, TokenizerKind,
};
use nanostore::pager::{PageId, PageSize, PageType, Pager, PagerError};
use nanostore::snap::{Snapshot, SnapshotId};
use nanostore::table::{Corruption, TableError};
use nanostore::types::{LogSequenceNumber, TableId, TransactionId};

#[test]
fn test_whitespace_tokenizer() {
    let config = TokenizerConfig {
        kind: TokenizerKind::Whitespace,
        min_word_length: 1,
        stop_words: Vec::new(),
    };
    let tokenizer = Tokenizer::new(config);
    let terms = tokenizer.tokenize("hello world foo");
    assert_eq!(terms.len(), 3);
    assert_eq!(terms[0], ("hello".to_string(), 0));
    assert_eq!(terms[1], ("world".to_string(), 1));
    assert_eq!(terms[2], ("foo".to_string(), 2));
}

#[test]
fn test_simple_tokenizer() {
    let tokenizer = Tokenizer::default();
    let terms = tokenizer.tokenize("Hello World! The Foo");
    assert_eq!(terms.len(), 3);
    assert_eq!(terms[0], ("hello".to_string(), 0));
    assert_eq!(terms[1], ("world".to_string(), 1));
    assert_eq!(terms[2], ("foo".to_string(), 2));
}

#[test]
fn test_stemming_tokenizer() {
    let config = TokenizerConfig {
        kind: TokenizerKind::Stemming,
        min_word_length: 2,
        stop_words: Vec::new(),
    };
    let tokenizer = Tokenizer::new(config);
    let terms = tokenizer.tokenize("running jumped cats");
    assert_eq!(terms.len(), 3);
    assert!(terms[0].0.contains("run"));
    assert!(terms[1].0.contains("jump"));
    assert!(terms[2].0.contains("cat"));
}

#[test]
fn joined_texts_have_the_terms_of_both() {
    for kind in [TokenizerKind::Whitespace, TokenizerKind::Simple, TokenizerKind::Stemming] {
        let config = TokenizerConfig { kind, ..TokenizerConfig::default() };
        let tokenizer = Tokenizer::new(config);
        let first = "The cats, running ";
        let second = " jumped over it";
        let names = |text: &str| {
            tokenizer.tokenize(text).into_iter().map(|t| t.0).collect::<Vec<String>>()
        };
        let mut both = names(first);
        both.extend(names(second));
        assert_eq!(names(&format!("{} {}", first, second)), both);
    }
}

#[test]
fn test_min_word_length() {
    let config = TokenizerConfig {
        kind: TokenizerKind::Whitespace,
        min_word_length: 4,
        stop_words: Vec::new(),
    };
    let tokenizer = Tokenizer::new(config);
    let terms = tokenizer.tokenize("the quick brown fox");
    assert_eq!(terms.len(), 2);
}

#[test]
fn words_outside_of_ascii_are_cut_and_measured_in_bytes() {
    let tokenizer = Tokenizer::default();
    let terms = tokenizer.tokenize("\u{c9}T\u{c9}\u{2003}x\u{e9} a,b;c");
    let words: Vec<String> = terms.into_iter().map(|t| t.0).collect();
    assert_eq!(words, vec!["\u{e9}t\u{e9}", "x\u{e9}", "abc"]);
}

#[test]
fn stems_have_known_values() {
    let cases = [
        ("classes", "class"),
        ("ponies", "pon"),
        ("ties", "ties"),
        ("cats", "cat"),
        ("glass", "glass"),
        ("agreed", "agree"),
        ("feed", "feed"),
        ("jumped", "jump"),
        ("running", "runn"),
        ("string", "string"),
        ("happy", "happi"),
        ("sky", "sky"),
        ("nation", "nation"),
        ("adoption", "adop"),
        ("kindness", "kind"),
        ("hopeful", "hope"),
    ];
    for (word, stem) in cases {
        assert_eq!(stem_lowercase(word.to_string()), stem, "{}", word);
    }
}

fn create_test_index() -> (Pager, PagedFullTextIndex) {
    let mut pager = Pager::create(PageSize::default());
    let index = PagedFullTextIndex::new(
        TableId::from(1),
        "test_index".to_string(),
        &mut pager,
        FullTextConfig::default(),
    )
    .unwrap();
    (pager, index)
}

fn query(text: &str) -> TextQuery<'_> {
    TextQuery { query: text, default_field: None, require_positions: false }
}

fn snapshot_at(lsn: LogSequenceNumber) -> Snapshot {
    Snapshot::new(SnapshotId::from(1), "test".to_string(), lsn, 0, 0, vec![])
}

fn field<'a>(name: &'a str, text: &'a str, boost: f32) -> TextField<'a> {
    TextField { name, text, boost: boost.to_bits() }
}

#[test]
fn test_index_and_search() {
    let (_, mut index) = create_test_index();

    let tx_id = TransactionId::from(1);
    let lsn = LogSequenceNumber::from(1);

    index
        .index_document(
            b"doc1",
            &[
                field("title", "Rust programming language", 2.0),
                field("body", "Rust is a systems programming language", 1.0),
            ],
            tx_id,
            lsn,
        )
        .unwrap();
    index.commit_versions(lsn).unwrap();

    index
        .index_document(
            b"doc2",
            &[
                field("title", "Python programming", 2.0),
                field("body", "Python is great for scripting", 1.0),
            ],
            tx_id,
            lsn,
        )
        .unwrap();
    index.commit_versions(lsn).unwrap();

    let results = index.search(query("rust")).unwrap();

    assert!(!results.is_empty(), "Search should return results");
    assert_eq!(results[0].doc_id, b"doc1".to_vec(), "First result should be doc1");
    assert_eq!(results.len(), 2);
    assert_eq!(results[0].term_freq, 2);
    assert_eq!(results[0].doc_freq, 2);
    assert_eq!(f32::from_bits(results[0].boost), 1.0);
    assert_eq!(index.specialty_stats().unwrap().entry_count, Some(2));
    assert!(index.verify().unwrap().warnings.is_empty());
}

#[test]
fn test_delete_document() {
    let (_, mut index) = create_test_index();

    let tx_id = TransactionId::from(1);
    let lsn1 = LogSequenceNumber::from(1);
    let lsn2 = LogSequenceNumber::from(2);

    index
        .index_document(b"doc1", &[field("title", "Hello world", 1.0)], tx_id, lsn1)
        .unwrap();
    index.commit_versions(lsn1).unwrap();

    let snapshot1 = snapshot_at(lsn1);
    let results = index.search_with_snapshot(query("hello"), Some(&snapshot1)).unwrap();
    assert!(!results.is_empty(), "Document should be visible before deletion");

    index.delete_document(b"doc1", tx_id, lsn2).unwrap();
    index.commit_versions(lsn2).unwrap();

    let snapshot2 = snapshot_at(lsn2);
    let results = index.search_with_snapshot(query("hello"), Some(&snapshot2)).unwrap();
    assert!(results.is_empty(), "Document should not be visible after deletion");

    let results = index.search_with_snapshot(query("hello"), Some(&snapshot1)).unwrap();
    assert_eq!(results.len(), 1);
}

#[test]
fn test_update_document() {
    let (_, mut index) = create_test_index();

    let tx_id = TransactionId::from(1);
    let lsn1 = LogSequenceNumber::from(1);
    let lsn2 = LogSequenceNumber::from(2);

    index
        .index_document(b"doc1", &[field("title", "Hello world", 1.0)], tx_id, lsn1)
        .unwrap();
    index.commit_versions(lsn1).unwrap();

    let snapshot1 = snapshot_at(lsn1);
    let results = index.search_with_snapshot(query("world"), Some(&snapshot1)).unwrap();
    assert!(!results.is_empty(), "Original document should be visible");

    index
        .update_document(b"doc1", &[field("title", "Hello rust", 1.0)], tx_id, lsn2)
        .unwrap();
    index.commit_versions(lsn2).unwrap();

    let snapshot2 = snapshot_at(lsn2);
    let results = index.search_with_snapshot(query("rust"), Some(&snapshot2)).unwrap();
    assert!(!results.is_empty(), "Updated document should contain 'rust'");

    let results = index.search_with_snapshot(query("world"), Some(&snapshot2)).unwrap();
    assert!(results.is_empty(), "Updated document should not contain 'world'");
}

#[test]
fn documents_without_terms_are_reported() {
    let (_, mut index) = create_test_index();
    index
        .index_document(
            &[0xde, 0x01],
            &[field("body", "the of", 1.0)],
            TransactionId::from(1),
            LogSequenceNumber::from(1),
        )
        .unwrap();
    let report = index.verify().unwrap();
    assert_eq!(report.checked_items, 1);
    assert_eq!(report.warnings[0].location, "Document de01 not in index");
}

#[test]
fn an_index_is_opened_by_its_root_page() {
    let (mut pager, index) = create_test_index();
    let opened =
        PagedFullTextIndex::open(TableId::from(1), "i".to_string(), &pager, index.root_page_id())
            .unwrap();
    assert_eq!(opened.num_documents, 0);
    assert!(opened.enable_positions);
    let open = |pager: &Pager, id: PageId| {
        PagedFullTextIndex::open(TableId::from(1), String::new(), pager, id).err().unwrap()
    };
    let missing = PageId::from(99);
    assert_eq!(
        open(&pager, missing),
        TableError::Pager(PagerError::PageNotFound(missing))
    );
    let id = pager.allocate_page(PageType::InvertedIndex);
    assert_eq!(
        open(&pager, id),
        TableError::Corruption(Corruption::ShortFullTextPage(id))
    );
    let mut page = pager.read_page(id).unwrap();
    page.data = vec![1u8; 80];
    pager.write_page(page).unwrap();
    assert_eq!(
        open(&pager, id),
        TableError::Corruption(Corruption::InvalidFullTextMagic(0x01010101))
    );
}

#[test]
fn postings_count_and_vacuum() {
    let mut list = PostingList::new();
    assert!(list.is_empty());
    let tx = TransactionId::from(1);
    list.add(PostingEntry::new(
        b"d1".to_vec(),
        "f".to_string(),
        vec![3, 300],
        1.5f32.to_bits(),
        tx,
    ));
    // Two positions, one of them in two bytes, behind their number, and four bytes of boost.
    assert_eq!(
        list.entries[0].version_chain.value,
        vec![2, 3, 0xac, 0x02, 0, 0, 0xc0, 0x3f]
    );
    list.add_occurrence(b"d2", "f".to_string(), 0, 0, tx, true);
    list.commit_versions(LogSequenceNumber::from(5));
    list.add_occurrence(b"d2", "f".to_string(), 4, 0, TransactionId::from(2), true);
    assert_eq!(list.entries[1].positions, vec![0, 4]);
    assert_eq!(list.doc_freq(None), 2);
    assert_eq!(list.doc_freq(Some(&snapshot_at(LogSequenceNumber::from(4)))), 0);
    assert_eq!(list.doc_freq(Some(&snapshot_at(LogSequenceNumber::from(5)))), 2);
    list.entries[1].commit(LogSequenceNumber::from(9));
    assert_eq!(list.vacuum(LogSequenceNumber::from(10)), 1);
    list.remove_document(b"d1");
    assert_eq!(list.entries.len(), 1);
    assert_eq!(list.entries[0].doc_id, b"d2".to_vec());
}

#[test]
fn rankings_go_from_the_best_score_down() {
    let docs = [(b"a", 5), (b"b", 9), (b"c", 5), (b"d", -1)];
    let scored: Vec<RankedDocument> = docs
        .iter()
        .map(|(d, s)| RankedDocument { doc_id: d.to_vec(), score: *s })
        .collect();
    let top = top_documents(scored, 3);
    let ids: Vec<Vec<u8>> = top.into_iter().map(|d| d.doc_id).collect();
    assert_eq!(ids, vec![b"b".to_vec(), b"a".to_vec(), b"c".to_vec()]);
}

#[test]
fn an_update_stores_the_new_fields() {
    let (_, mut index) = create_test_index();
    let tx = TransactionId::from(1);
    let lsn = LogSequenceNumber::from(1);
    index.index_document(b"d", &[field("title", "Hello world", 1.0)], tx, lsn).unwrap();
    index
        .update_document(b"d", &[field("title", "Rust", 1.0), field("body", "fast", 2.0)], tx, lsn)
        .unwrap();
    let stored = index.document_store.get(b"d").unwrap();
    assert_eq!(stored.doc_id, b"d".to_vec());
    assert_eq!(
        stored.fields,
        vec![
            ("title".to_string(), "Rust".to_string()),
            ("body".to_string(), "fast".to_string())
        ]
    );
    assert_eq!(index.num_documents, 1);
}

#[test]
fn a_vacuum_keeps_what_later_snapshots_see_of_postings() {
    let mut list = PostingList::new();
    let lsn = LogSequenceNumber::from;
    for (n, doc) in [(1u64, b"d1"), (2, b"d2"), (3, b"d1")] {
        list.add_occurrence(doc, "f".to_string(), n as usize, 0, TransactionId::from(n), true);
        list.commit_versions(lsn(10 * n));
    }
    let counts = |list: &PostingList| {
        [20u64, 25, 30, 99].iter().map(|l| list.doc_freq(Some(&snapshot_at(lsn(*l))))).collect::<Vec<_>>()
    };
    let before = counts(&list);
    assert_eq!(before, vec![2, 2, 2, 2]);
    list.vacuum(lsn(20));
    assert_eq!(counts(&list), before);
    assert_eq!(list.entries[0].positions, vec![1, 3]);
}

#[test]
fn blanks_part_words() {
    let config = TokenizerConfig { kind: TokenizerKind::Whitespace, ..TokenizerConfig::default() };
    let tokenizer = Tokenizer::new(config);
    for blank in [' ', '\t', '\n', '\u{b}', '\u{c}', '\r', '\u{85}', '\u{a0}', '\u{2003}', '\u{3000}'] {
        let terms = tokenizer.tokenize(&format!("alpha{}beta", blank));
        let names: Vec<String> = terms.into_iter().map(|t| t.0).collect();
        assert_eq!(names, vec!["alpha".to_string(), "beta".to_string()], "{:?}", blank);
    }
    let terms = tokenizer.tokenize("alpha\u{200b}beta");
    assert_eq!(terms.len(), 1);
}

#[test]
fn committed_documents_are_found_from_their_commit_on() {
    let (_, mut index) = create_test_index();
    let lsn = LogSequenceNumber::from;
    let found = |index: &PagedFullTextIndex, word: &str, at: u64| {
        let hits =
            index.search_with_snapshot(query(word), Some(&snapshot_at(lsn(at)))).unwrap();
        hits.iter().map(|h| h.doc_id.clone()).collect::<Vec<_>>()
    };
    index
        .index_document(b"d", &[field("title", "rust engine", 1.0)], TransactionId::from(1), lsn(1))
        .unwrap();
    assert!(found(&index, "engine", 99).is_empty());
    index.commit_versions(lsn(10)).unwrap();
    assert!(found(&index, "engine", 9).is_empty());
    assert_eq!(found(&index, "engine", 10), vec![b"d".to_vec()]);
    let hits = index.search_with_snapshot(query("engine"), None).unwrap();
    assert_eq!(hits[0].doc_id, b"d".to_vec());
    index
        .update_document(b"d", &[field("title", "rust table", 1.0)], TransactionId::from(2), lsn(11))
        .unwrap();
    index.commit_versions(lsn(20)).unwrap();
    assert_eq!(found(&index, "table", 20), vec![b"d".to_vec()]);
    assert_eq!(found(&index, "rust", 20), vec![b"d".to_vec()]);
    assert!(found(&index, "engine", 20).is_empty());
    assert_eq!(found(&index, "engine", 19), vec![b"d".to_vec()]);
    index.delete_document(b"d", TransactionId::from(3), lsn(21)).unwrap();
    index.commit_versions(lsn(30)).unwrap();
    assert!(found(&index, "rust", 30).is_empty());
    assert_eq!(found(&index, "rust", 29), vec![b"d".to_vec()]);
}

#[test]
fn positions_start_afresh_behind_a_deletion() {
    let (_, mut index) = create_test_index();
    let lsn = LogSequenceNumber::from;
    let tx = TransactionId::from(1);
    index.index_document(b"d", &[field("f", "word word other", 1.0)], tx, lsn(1)).unwrap();
    index.commit_versions(lsn(1)).unwrap();
    let snapshot = snapshot_at(lsn(9));
    let hits = index.search_with_snapshot(query("word"), Some(&snapshot)).unwrap();
    assert_eq!(hits[0].term_freq, 2);
    index.update_document(b"d", &[field("f", "other word", 1.0)], tx, lsn(2)).unwrap();
    index.commit_versions(lsn(2)).unwrap();
    let hits = index.search_with_snapshot(query("word"), Some(&snapshot)).unwrap();
    assert_eq!(hits[0].term_freq, 1);
    assert_eq!(index.inverted_index.get(b"word").unwrap().entries[0].positions, vec![1]);
}

#[test]
fn warnings_of_missing_documents_have_no_detail() {
    let (_, mut index) = create_test_index();
    index
        .index_document(&[1], &[field("f", "a", 1.0)], TransactionId::from(1), LogSequenceNumber::from(1))
        .unwrap();
    let report = index.verify().unwrap();
    assert_eq!(report.warnings.len(), 1);
    assert_eq!(report.warnings[0].detail, 0);
}

#[test]
fn documents_leave_each_other_alone() {
    let (_, mut index) = create_test_index();
    let lsn = LogSequenceNumber::from;
    let tx = TransactionId::from(1);
    let found = |index: &PagedFullTextIndex, word: &str| {
        let snapshot = snapshot_at(lsn(99));
        let hits = index.search_with_snapshot(query(word), Some(&snapshot)).unwrap();
        let mut ids: Vec<Vec<u8>> = hits.iter().map(|h| h.doc_id.clone()).collect();
        ids.sort();
        ids
    };
    index.index_document(b"a", &[field("f", "red blue", 1.0)], tx, lsn(1)).unwrap();
    index.commit_versions(lsn(1)).unwrap();
    index.index_document(b"b", &[field("f", "blue green", 1.0)], tx, lsn(2)).unwrap();
    index.commit_versions(lsn(2)).unwrap();
    assert_eq!(found(&index, "red"), vec![b"a".to_vec()]);
    assert_eq!(found(&index, "blue"), vec![b"a".to_vec(), b"b".to_vec()]);
    index.update_document(b"b", &[field("f", "green", 1.0)], tx, lsn(3)).unwrap();
    index.commit_versions(lsn(3)).unwrap();
    assert_eq!(found(&index, "blue"), vec![b"a".to_vec()]);
    index.delete_document(b"b", tx, lsn(4)).unwrap();
    index.commit_versions(lsn(4)).unwrap();
    assert!(found(&index, "green").is_empty());
    assert_eq!(found(&index, "red"), vec![b"a".to_vec()]);
    assert_eq!(found(&index, "blue"), vec![b"a".to_vec()]);
}
