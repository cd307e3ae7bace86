use soma::{prepare_input, EmbedTask};

#[test]
fn nomic_embed_text_gets_document_prefix() {
    let out = prepare_input("nomic-embed-text", EmbedTask::Document, "hello");
    assert_eq!(out, "search_document: hello");
}

#[test]
fn nomic_embed_text_gets_query_prefix() {
    let out = prepare_input("nomic-embed-text", EmbedTask::Query, "what is rust");
    assert_eq!(out, "search_query: what is rust");
}

#[test]
fn nomic_embed_text_gets_clustering_prefix() {
    let out = prepare_input("nomic-embed-text", EmbedTask::Clustering, "some text");
    assert_eq!(out, "clustering: some text");
}

#[test]
fn nomic_embed_text_versioned_variant_gets_prefix() {
    // e.g. "nomic-embed-text:v1.5" should also get the prefix
    let out = prepare_input("nomic-embed-text:v1.5", EmbedTask::Document, "hello");
    assert_eq!(out, "search_document: hello");
}

#[test]
fn unknown_model_passes_text_through_unchanged() {
    let out = prepare_input("mxbai-embed-large", EmbedTask::Document, "hello");
    assert_eq!(out, "hello", "non-nomic models must not receive a nomic-style prefix");
}

#[test]
fn all_minilm_passes_text_through_unchanged() {
    let out = prepare_input("all-minilm", EmbedTask::Clustering, "cluster me");
    assert_eq!(out, "cluster me");
}

#[test]
fn empty_model_string_passes_text_through_unchanged() {
    let out = prepare_input("", EmbedTask::Query, "test query");
    assert_eq!(out, "test query");
}

#[test]
fn model_name_merely_containing_nomic_gets_no_prefix() {
    let out = prepare_input("my-nomic-embed-text", EmbedTask::Query, "q");
    assert_eq!(out, "q");
}
