use local_rag::embeddings::EmbeddingModel;
use local_rag::index::WordIndex;
use local_rag::model::{Document, DocumentChunk};
use local_rag::scanner::{classify, document_title, FileKind};
use local_rag::store::{
    BuildStats, LoadError, ModelFiles, RagSystem, Resource, ResourceKind, SourceText,
    CHUNKS_FILE, DOCUMENTS_FILE, WORD_INDEX_FILE,
};

fn file(title: &str, content: &str) -> SourceText {
    SourceText {
        title: title.to_string(),
        content: content.to_string(),
        source: format!("data/{}.txt", title),
    }
}

fn words(word: &str, n: usize) -> String {
    vec![word; n].join(" ")
}

#[test]
fn a_new_knowledge_base_is_empty() {
    let system = RagSystem::new("agentic", "data");
    assert_eq!(system.get_stats(), (0, 0));
    assert!(system.documents().is_empty());
    assert!(system.chunks().is_empty());
    assert_eq!(system.word_index().len(), 0);
    assert_eq!(system.agentic_dir(), "agentic");
    assert_eq!(system.data_dir(), "data");
    assert!(system.get_document_by_id("x").is_none());
}

#[test]
fn one_file_of_two_long_sentences_builds_one_document_and_two_chunks() {
    let mut system = RagSystem::new("agentic", "data");
    let text = format!("{}. {}.", words("alpha", 300), words("beta", 300));
    let stats = system.build_local_model(vec![file("notes", &text)]);
    assert_eq!(stats, BuildStats { document_count: 1, chunk_count: 2 });
    assert_eq!(system.get_stats(), (1, 2));
    let doc = &system.documents()[0];
    assert_eq!(doc.title, "notes");
    assert_eq!(doc.content, text);
    assert_eq!(doc.source, "data/notes.txt");
    assert_eq!(doc.chunk_index, 0);
    assert!(doc.metadata.is_empty());
    assert_eq!(doc.id.len(), 36);
    let chunks = system.chunks();
    assert_eq!(chunks[0].word_count, 300);
    assert_eq!(chunks[1].word_count, 300);
    assert_eq!(chunks[0].chunk_index, 0);
    assert_eq!(chunks[1].chunk_index, 1);
    assert_eq!(chunks[0].document_id, doc.id);
    assert_eq!(chunks[1].document_id, doc.id);
    assert_eq!(chunks[0].content, words("alpha", 300));
    assert_ne!(chunks[0].id, chunks[1].id);
    assert_ne!(chunks[0].id, doc.id);
    assert!(system.chunks().iter().all(|c| c.word_count > 0));
    assert_eq!(system.word_index().get("alpha").map(|l| l.len()), Some(300));
    assert_eq!(system.word_index().get("beta"), Some(&vec![1; 300]));
}

#[test]
fn a_build_replaces_what_was_there() {
    let mut system = RagSystem::new("agentic", "data");
    system.build_local_model(vec![file("a", "one two. three"), file("b", "four")]);
    assert_eq!(system.get_stats(), (2, 2));
    assert!(system.word_index().get("one").is_some());
    let stats = system.build_local_model(vec![file("c", "five"), file("d", ""), file("e", "six")]);
    assert_eq!(stats, BuildStats { document_count: 3, chunk_count: 2 });
    assert!(system.word_index().get("one").is_none());
    assert_eq!(system.word_index().get("six"), Some(&vec![1]));
    assert_eq!(system.documents()[1].title, "d");
    assert_eq!(system.chunks()[1].document_id, system.documents()[2].id);
    let stats = system.build_local_model(Vec::new());
    assert_eq!(stats, BuildStats { document_count: 0, chunk_count: 0 });
    assert_eq!(system.word_index().len(), 0);
}

#[test]
fn documents_get_identifiers_of_their_own() {
    let mut system = RagSystem::new("agentic", "data");
    system.build_local_model(vec![file("a", "one"), file("b", "two"), file("c", "three")]);
    let ids: Vec<&String> = system.documents().iter().map(|d| &d.id).collect();
    assert_ne!(ids[0], ids[1]);
    assert_ne!(ids[1], ids[2]);
    assert_ne!(ids[0], ids[2]);
    for id in ids {
        assert_eq!(id.len(), 36);
        let found = system.get_document_by_id(id).map(|d| d.id.clone());
        assert_eq!(found.as_ref(), Some(id));
    }
    assert!(system.get_document_by_id("").is_none());
    assert!(system.get_document_by_id("no-such-id").is_none());
}

#[test]
fn create_document_appends_and_leaves_the_index() {
    let mut system = RagSystem::new("agentic", "data");
    system.build_local_model(vec![file("a", "one two")]);
    system.create_document("b".to_string(), "three. four".to_string(), "mem".to_string());
    assert_eq!(system.get_stats(), (2, 2));
    assert_eq!(system.chunks()[1].content, "three four");
    assert_eq!(system.chunks()[1].chunk_index, 0);
    assert!(system.word_index().get("three").is_none());
    system.build_word_index();
    assert_eq!(system.word_index().get("three"), Some(&vec![1]));
    assert_eq!(system.word_index().get("one"), Some(&vec![0]));
}

#[test]
fn the_first_document_with_the_identifier_is_found() {
    let mut system = RagSystem::new("agentic", "data");
    let docs = vec![
        Document::new("x".into(), "first".into(), "a".into(), "s1".into()),
        Document::new("y".into(), "second".into(), "b".into(), "s2".into()),
        Document::new("x".into(), "third".into(), "c".into(), "s3".into()),
    ];
    let loaded = system.load_model(
        Resource::Loaded(docs),
        Resource::Loaded(Vec::new()),
        Resource::Loaded(WordIndex::new()),
    );
    assert_eq!(loaded, Ok(true));
    assert_eq!(system.get_document_by_id("x").map(|d| d.title.as_str()), Some("first"));
    assert_eq!(system.get_document_by_id("y").map(|d| d.title.as_str()), Some("second"));
    assert!(system.get_document_by_id("z").is_none());
    assert!(system.get_document_by_id("X").is_none());
}

#[test]
fn a_model_is_available_when_all_three_resources_exist() {
    let system = RagSystem::new("agentic", "data");
    for documents in [false, true] {
        for chunks in [false, true] {
            for word_index in [false, true] {
                let files = ModelFiles { documents, chunks, word_index };
                assert_eq!(system.is_model_available(&files), documents && chunks && word_index);
            }
        }
    }
    assert_eq!(DOCUMENTS_FILE, "documents.json");
    assert_eq!(CHUNKS_FILE, "chunks.json");
    assert_eq!(WORD_INDEX_FILE, "word_index.json");
}

#[test]
fn load_without_a_resource_reports_no_model() {
    let mut system = RagSystem::new("agentic", "data");
    system.build_local_model(vec![file("a", "one two")]);
    let got = system.load_model(Resource::Missing, Resource::Missing, Resource::Missing);
    assert_eq!(got, Ok(false));
    let got = system.load_model(
        Resource::Loaded(Vec::new()),
        Resource::Malformed,
        Resource::Missing,
    );
    assert_eq!(got, Ok(false));
    let got = system.load_model(
        Resource::Unreadable,
        Resource::Missing,
        Resource::Loaded(WordIndex::new()),
    );
    assert_eq!(got, Ok(false));
    assert_eq!(system.get_stats(), (1, 1));
}

#[test]
fn load_reports_the_first_error() {
    let mut system = RagSystem::new("agentic", "data");
    system.build_local_model(vec![file("a", "one two")]);
    let got = system.load_model(Resource::Unreadable, Resource::Malformed, Resource::Malformed);
    assert_eq!(got, Err(LoadError::Io(ResourceKind::Documents)));
    let got = system.load_model(Resource::Malformed, Resource::Unreadable, Resource::Unreadable);
    assert_eq!(got, Err(LoadError::Serialization(ResourceKind::Documents)));
    let got =
        system.load_model(Resource::Loaded(Vec::new()), Resource::Unreadable, Resource::Malformed);
    assert_eq!(got, Err(LoadError::Io(ResourceKind::Chunks)));
    let got =
        system.load_model(Resource::Loaded(Vec::new()), Resource::Malformed, Resource::Unreadable);
    assert_eq!(got, Err(LoadError::Serialization(ResourceKind::Chunks)));
    let got = system.load_model(
        Resource::Loaded(Vec::new()),
        Resource::Loaded(Vec::new()),
        Resource::Unreadable,
    );
    assert_eq!(got, Err(LoadError::Io(ResourceKind::WordIndex)));
    let got = system.load_model(
        Resource::Loaded(Vec::new()),
        Resource::Loaded(Vec::new()),
        Resource::Malformed,
    );
    assert_eq!(got, Err(LoadError::Serialization(ResourceKind::WordIndex)));
    assert_eq!(system.get_stats(), (1, 1));
    assert_eq!(system.word_index().get("one"), Some(&vec![0]));
}

#[test]
fn a_loaded_model_answers_as_the_one_that_was_stored() {
    let mut first = RagSystem::new("agentic", "data");
    first.build_local_model(vec![
        file("a", "toro manual guide. The toro recycler"),
        file("b", "garden book shelf"),
        file("c", &format!("{}. {}", words("toro", 400), words("manual", 400))),
    ]);
    let documents: Vec<Document> = first.documents().clone();
    let chunks: Vec<DocumentChunk> = first.chunks().clone();
    let mut index = WordIndex::new();
    for i in 0..first.word_index().len() {
        index.put(first.word_index().word_at(i).clone(), first.word_index().postings_at(i).clone());
    }
    let mut second = RagSystem::new("elsewhere", "nowhere");
    let got = second.load_model(
        Resource::Loaded(documents),
        Resource::Loaded(chunks),
        Resource::Loaded(index),
    );
    assert_eq!(got, Ok(true));
    assert_eq!(second.get_stats(), first.get_stats());
    assert_eq!(second.agentic_dir(), "elsewhere");
    for (a, b) in first.documents().iter().zip(second.documents()) {
        assert_eq!((&a.id, &a.title, &a.content, &a.source), (&b.id, &b.title, &b.content, &b.source));
        assert_eq!((a.chunk_index, &a.metadata), (b.chunk_index, &b.metadata));
    }
    for (a, b) in first.chunks().iter().zip(second.chunks()) {
        assert_eq!((&a.id, &a.document_id, &a.content), (&b.id, &b.document_id, &b.content));
        assert_eq!((a.chunk_index, a.word_count), (b.chunk_index, b.word_count));
    }
    for query in ["toro", "manual toro", "garden", "nothing", "the toro recycler 22"] {
        assert_eq!(first.score_terms(query), second.score_terms(query), "{}", query);
    }
}

#[test]
fn files_are_told_apart_by_their_extension() {
    assert_eq!(classify(Some("pdf")), FileKind::Pdf);
    assert_eq!(classify(Some("txt")), FileKind::Text);
    assert_eq!(classify(Some("md")), FileKind::Text);
    for other in ["PDF", "Txt", "MD", "doc", "", "pdf ", "markdown", "tx"] {
        assert_eq!(classify(Some(other)), FileKind::Unsupported, "{:?}", other);
    }
    assert_eq!(classify(None), FileKind::Unsupported);
}

#[test]
fn a_document_is_called_by_the_stem_of_its_file() {
    assert_eq!(document_title(Some("report"), FileKind::Pdf), "report");
    assert_eq!(document_title(Some("notes"), FileKind::Text), "notes");
    assert_eq!(document_title(Some(""), FileKind::Text), "");
    assert_eq!(document_title(None, FileKind::Pdf), "Unknown PDF");
    assert_eq!(document_title(None, FileKind::Text), "Unknown Text File");
}

#[test]
fn an_embedding_model_keeps_its_dimensions() {
    let model = EmbeddingModel::new(1000, 64);
    assert_eq!(model.vocab_size(), 1000);
    assert_eq!(model.embedding_dim(), 64);
    assert_eq!(model, EmbeddingModel::new(1000, 64));
}
