use ngram::archive::Archive;

#[test]
fn publish_assigns_sequential_ids() {
    let mut archive = Archive::new();
    for expected in 0..10usize {
        let id = archive.publish(format!("document number {}", expected));
        assert_eq!(id, expected);
    }
    assert_eq!(archive.doc_count(), 10);
}

#[test]
fn ids_strictly_increase_and_never_repeat() {
    let mut archive = Archive::new();
    let mut seen = Vec::new();
    for _ in 0..20 {
        let id = archive.publish(String::from("same text every time"));
        assert!(!seen.contains(&id));
        if let Some(last) = seen.last() {
            assert!(id > *last);
        }
        seen.push(id);
    }
}

#[test]
fn publish_then_retrieve_returns_text_exactly() {
    let mut archive = Archive::new();
    let id = archive.publish(String::from("the cat sat"));
    assert_eq!(archive.retrieve(id), Some(String::from("the cat sat")));
    archive.publish(String::from("later document"));
    archive.publish(String::from("another later document"));
    assert_eq!(archive.retrieve(id), Some(String::from("the cat sat")));
}

#[test]
fn retrieve_unissued_id_is_not_found() {
    let mut archive = Archive::new();
    assert_eq!(archive.retrieve(0), None);
    archive.publish(String::from("only document"));
    assert_eq!(archive.retrieve(1), None);
    assert_eq!(archive.retrieve(1000), None);
}

#[test]
fn search_finds_matching_documents_ascending() {
    let mut archive = Archive::new();
    let d1 = archive.publish(String::from("the cat sat"));
    let d2 = archive.publish(String::from("the dog sat"));
    assert_eq!(archive.search("sat"), vec![d1, d2]);
    assert_eq!(archive.search("cat"), vec![d1]);
    assert_eq!(archive.search("bird"), Vec::<usize>::new());
}

#[test]
fn search_is_case_sensitive() {
    let mut archive = Archive::new();
    let id = archive.publish(String::from("The cat"));
    assert_eq!(archive.search("The"), vec![id]);
    assert_eq!(archive.search("the"), Vec::<usize>::new());
    assert_eq!(archive.search("CAT"), Vec::<usize>::new());
}

#[test]
fn search_splits_on_punctuation_and_whitespace() {
    let mut archive = Archive::new();
    let id = archive.publish(String::from("cat,dog;fish\nbird42 end."));
    assert_eq!(archive.search("cat"), vec![id]);
    assert_eq!(archive.search("dog"), vec![id]);
    assert_eq!(archive.search("fish"), vec![id]);
    assert_eq!(archive.search("bird42"), vec![id]);
    assert_eq!(archive.search("end"), vec![id]);
    assert_eq!(archive.search("bird"), Vec::<usize>::new());
    assert_eq!(archive.search("42"), Vec::<usize>::new());
}

#[test]
fn search_matches_whole_tokens_only() {
    let mut archive = Archive::new();
    archive.publish(String::from("concatenation"));
    assert_eq!(archive.search("cat"), Vec::<usize>::new());
    assert_eq!(archive.search("concatenation"), vec![0]);
}

#[test]
fn search_empty_or_malformed_word_finds_nothing() {
    let mut archive = Archive::new();
    archive.publish(String::from("anything at all"));
    assert_eq!(archive.search(""), Vec::<usize>::new());
    assert_eq!(archive.search("at all"), Vec::<usize>::new());
    assert_eq!(archive.search("all."), Vec::<usize>::new());
}

#[test]
fn repeated_word_indexes_document_once() {
    let mut archive = Archive::new();
    let id = archive.publish(String::from("echo echo echo"));
    assert_eq!(archive.search("echo"), vec![id]);
}

#[test]
fn empty_and_duplicate_documents_are_accepted() {
    let mut archive = Archive::new();
    let a = archive.publish(String::new());
    let b = archive.publish(String::from("twin"));
    let c = archive.publish(String::from("twin"));
    assert_eq!(a, 0);
    assert_eq!(b, 1);
    assert_eq!(c, 2);
    assert_eq!(archive.retrieve(a), Some(String::new()));
    assert_eq!(archive.search("twin"), vec![b, c]);
}

#[test]
fn many_publishes_then_search_finds_every_document() {
    let mut archive = Archive::new();
    let n = 25usize;
    let mut ids = Vec::new();
    for k in 0..n {
        ids.push(archive.publish(format!("shared plus unique{}", k)));
    }
    for (k, id) in ids.iter().enumerate() {
        assert_eq!(*id, k);
        assert_eq!(archive.search(&format!("unique{}", k)), vec![k]);
    }
    assert_eq!(archive.search("shared"), (0..n).collect::<Vec<usize>>());
}
