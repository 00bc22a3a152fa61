use merlion_kernel::knowledge::{
    cosine_similarity, embed_text, format_search_results, hash_word, KnowledgeBase, EMBED_DIM,
};

#[test]
fn hash_word_is_case_insensitive_djb2() {
    assert_eq!(hash_word(""), 5381);
    assert_eq!(hash_word("hello"), 261238937);
    assert_eq!(hash_word("HeLLo"), hash_word("hello"));
}

#[test]
fn embed_text_counts_words_per_bucket() {
    let e = embed_text("hello  Hello\tHELLO");
    assert_eq!(e.len(), EMBED_DIM);
    assert_eq!(e[25], 3);
    assert_eq!(e.iter().map(|x| *x as i64).sum::<i64>(), 3);
    let empty = embed_text("   ");
    assert!(empty.iter().all(|x| *x == 0));
}

#[test]
fn cosine_similarity_scaled() {
    assert_eq!(cosine_similarity(&[3, 4], &[3, 4]), 10000);
    assert_eq!(cosine_similarity(&[1, 0], &[0, 1]), 0);
    assert_eq!(cosine_similarity(&[], &[1]), 0);
    assert_eq!(cosine_similarity(&[0, 0], &[1, 1]), 0);
    assert_eq!(cosine_similarity(&[1, 0], &[-1, 0]), -10000);
    assert_eq!(cosine_similarity(&[1, 1], &[1, 0]), 10000);
    assert_eq!(cosine_similarity(&[2, 0], &[1, 3]), 3333);
}

#[test]
fn add_list_delete() {
    let mut kb = KnowledgeBase::new();
    assert!(kb.is_empty());
    let a = kb.add_document("Rust", "systems language", vec![String::from("lang")]);
    let b = kb.add_document("Verus", "verifier for rust", vec![]);
    assert_eq!((a, b), (1, 2));
    assert_eq!(kb.len(), 2);
    let l = kb.list_documents();
    assert_eq!(l[0].title, "Rust");
    assert_eq!(l[1].id, 2);
    assert!(kb.delete_document(1));
    assert!(!kb.delete_document(1));
    assert_eq!(kb.len(), 1);
    assert_eq!(kb.list_documents()[0].id, 2);
}

#[test]
fn search_ranks_by_similarity() {
    let mut kb = KnowledgeBase::new();
    kb.add_document("alpha", "alpha alpha", vec![]);
    kb.add_document("beta", "beta", vec![]);
    kb.add_document("gamma", "alpha beta", vec![]);
    let r = kb.search("alpha", 10);
    assert_eq!(r.len(), 3);
    assert_eq!(r[0].document.title, "alpha");
    assert_eq!(r[0].score, 10000);
    assert!(r[0].score >= r[1].score && r[1].score >= r[2].score);
    let top = kb.search("alpha", 1);
    assert_eq!(top.len(), 1);
    assert_eq!(top[0].document.id, 1);
}

#[test]
fn format_results() {
    assert_eq!(format_search_results(&[]), "No matching documents found.");
    let mut kb = KnowledgeBase::new();
    kb.add_document("Title", "body text", vec![String::from("a"), String::from("b")]);
    let r = kb.search("title", 5);
    let out = format_search_results(&r);
    let expected = format!(
        "Found 1 result(s):\n\n  1. [id=1] \"Title\" (score: {}, tags: a, b)\n     body text\n",
        r[0].score
    );
    assert_eq!(out, expected);
    let long = "y".repeat(100);
    kb.add_document("Long", &long, vec![]);
    let r = kb.search("long", 1);
    let out = format_search_results(&r);
    assert!(out.contains(&format!("{}...", "y".repeat(80))));
    assert!(out.contains("tags: none"));
}
