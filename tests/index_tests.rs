use imser::{
    search_multi_term, search_term, whitespace_tokenize, Document, IndexWriter, MultiTermQuery,
    PositionalIndex, PostingData, PostingList, TermDict,
};

fn doc(body: &str) -> Document {
    Document::new(body.to_string())
}

fn write(writer: &mut IndexWriter, body: &str) {
    let tokens = whitespace_tokenize(body);
    writer.write(doc(body), &tokens);
}

fn build(bodies: &[&str]) -> PositionalIndex {
    let mut writer = IndexWriter::new();
    for body in bodies {
        write(&mut writer, body);
    }
    writer.build()
}

fn posting(entries: Vec<(usize, Vec<usize>)>) -> PostingList {
    let mut list = PostingList::new();
    for (doc_id, positions) in entries {
        list.push(PostingData { doc_id, positions });
    }
    list
}

fn idf(index: &PositionalIndex, term: &String) -> f32 {
    let df = index.doc_freq(term);
    ((index.doc_count() as f32) / ((df + 1) as f32)).log2().max(0f32)
}

fn tf(index: &PositionalIndex, doc_id: usize, term: &String) -> f32 {
    let (occurrences, total) = index.tf(doc_id, term);
    if total == 0 {
        0f32
    } else {
        (occurrences as f32) / (total as f32)
    }
}

const ANIMALS: [&str; 3] = ["dog dog dog monkey bird", "dog cat cat fox", "dog raccoon fox"];

#[test]
fn doc_iter_test() {
    let index = build(&ANIMALS);

    // don't exist term
    let query = MultiTermQuery::new(vec!["mouse".to_string(), "fox".to_string()]);
    let mut iter = query.iter(&index);
    assert_eq!(iter.next(), None);
    assert_eq!(iter.next(), None);

    let query = MultiTermQuery::new(vec!["dog".to_string()]);
    let mut iter = query.iter(&index);
    assert_eq!(iter.next(), Some(0));
    assert_eq!(iter.next(), Some(1));
    assert_eq!(iter.next(), Some(2));
    assert_eq!(iter.next(), None);

    let query = MultiTermQuery::new(vec!["dog".to_string(), "fox".to_string()]);
    let mut iter = query.iter(&index);
    assert_eq!(iter.next(), Some(1));
    assert_eq!(iter.next(), Some(2));
    assert_eq!(iter.next(), None);

    let query = MultiTermQuery::new(vec!["dog".to_string(), "dog".to_string()]);
    let mut iter = query.iter(&index);
    assert_eq!(iter.next(), Some(0));
    assert_eq!(iter.next(), Some(1));
    assert_eq!(iter.next(), Some(2));
    assert_eq!(iter.next(), None);

    let query = MultiTermQuery::new(vec!["dog".to_string(), "bird".to_string()]);
    let mut iter = query.iter(&index);
    assert_eq!(iter.next(), Some(0));
    assert_eq!(iter.next(), None);
}

#[test]
fn term_dict_test() {
    let mut term_dict = TermDict::new();

    assert_eq!(term_dict.add_term("This"), 0);
    assert_eq!(term_dict.add_term("is"), 1);
    assert_eq!(term_dict.add_term("a"), 2);
    assert_eq!(term_dict.add_term("pen"), 3);

    let term = "This".to_string();
    assert_eq!(term_dict.index(&term), Some(0));
    assert_eq!(term_dict.term(0), Some(&term));
    let term = "is".to_string();
    assert_eq!(term_dict.index(&term), Some(1));
    assert_eq!(term_dict.term(1), Some(&term));
    let term = "pen".to_string();
    assert_eq!(term_dict.index(&term), Some(3));
    assert_eq!(term_dict.term(3), Some(&term));
}

#[test]
fn tfidf_test() {
    let index = build(&ANIMALS);

    let term = "dog".to_string();
    assert_eq!(idf(&index, &term), 0f32);
    assert_eq!(tf(&index, 0, &term), 0.6);
    assert_eq!(tf(&index, 1, &term), 0.25);
    assert_eq!(tf(&index, 2, &term), 1f32 / 3f32);

    let term = "bird".to_string();
    assert_eq!(idf(&index, &term), 0.5849625007f32);
    assert_eq!(tf(&index, 0, &term), 0.2);
    assert_eq!(tf(&index, 1, &term), 0f32);
    assert_eq!(tf(&index, 2, &term), 0f32);

    let term = "fox".to_string();
    assert_eq!(idf(&index, &term), 0f32);
    assert_eq!(tf(&index, 0, &term), 0f32);
    assert_eq!(tf(&index, 1, &term), 0.25);
    assert_eq!(tf(&index, 2, &term), 1f32 / 3f32);
}

#[test]
fn indexing_test() {
    let index = build(&[
        "What is this",
        "I am Taisuke",
        "that that is is that that is not is not is that it it is",
    ]);

    let postings = vec![
        ("I", posting(vec![(1, vec![0])])),
        ("am", posting(vec![(1, vec![1])])),
        ("Taisuke", posting(vec![(1, vec![2])])),
        ("this", posting(vec![(0, vec![2])])),
        ("that", posting(vec![(2, vec![0, 1, 4, 5, 11])])),
        ("is", posting(vec![(0, vec![1]), (2, vec![2, 3, 6, 8, 10, 14])])),
        ("not", posting(vec![(2, vec![7, 9])])),
        ("it", posting(vec![(2, vec![12, 13])])),
        ("What", posting(vec![(0, vec![0])])),
    ];
    for (term, expected) in postings.iter() {
        assert_eq!(index.postings(&term.to_string()), Some(expected));
    }
    assert_eq!(index.num_terms(), postings.len());

    let stored = vec![
        doc("What is this"),
        doc("I am Taisuke"),
        doc("that that is is that that is not is not is that it it is"),
    ];
    assert_eq!(index.doc_count(), stored.len());
    for (id, expected) in stored.iter().enumerate() {
        assert_eq!(index.doc(id), Some(expected));
    }

    assert_eq!(index.doc(100), None);
    assert_eq!(index.doc(0), Some(&doc("What is this")));
}

#[test]
fn tfidf_term_search_test() {
    let index = build(&ANIMALS);

    let term = "dog".to_string();
    assert_eq!(search_term(&index, &term), vec![0, 1, 2]);

    let term = "fox".to_string();
    assert_eq!(search_term(&index, &term), vec![1, 2]);
}

#[test]
fn search_term_test() {
    let index = build(&[
        "I am Taisuke",
        "that that is is that that is not is not is that it it is",
    ]);

    let term = "Taisuke".to_string();
    assert_eq!(search_term(&index, &term), vec![0]);

    let term = "that".to_string();
    assert_eq!(search_term(&index, &term), vec![1]);

    let term = "foo".to_string();
    assert_eq!(search_term(&index, &term), Vec::<usize>::new());
}

#[test]
fn dict_round_trip_on_written_terms() {
    let mut dict = TermDict::new();
    for t in ["a", "b", "a", "c", "b"] {
        dict.add_term(t);
    }
    assert_eq!(dict.len(), 3);
    for id in 0..dict.len() {
        let term = dict.term(id).unwrap().clone();
        assert_eq!(dict.index(&term), Some(id));
    }
    assert_eq!(dict.term(3), None);
    assert_eq!(dict.index(&"z".to_string()), None);
}

#[test]
fn postings_ascend_by_doc_id() {
    let index = build(&["b a", "a", "c", "a b a"]);
    let list = index.postings(&"a".to_string()).unwrap();
    let ids: Vec<usize> = list.postings.iter().map(|p| p.doc_id).collect();
    assert_eq!(ids, vec![0, 1, 3]);
    assert_eq!(list.postings[2].positions, vec![0, 2]);
}

#[test]
fn idf_is_zero_for_a_term_in_every_document() {
    let index = build(&ANIMALS);
    let term = "dog".to_string();
    assert_eq!(index.doc_freq(&term), 3);
    assert_eq!(idf(&index, &term), 0f32);
    assert!(idf(&index, &"monkey".to_string()) >= 0f32);
    assert_eq!(index.doc_freq(&"foo".to_string()), 0);
}

#[test]
fn tfidf_ranking_is_stable() {
    let index = build(&["cat dog dog", "cat", "x", "y", "z", "dog cat cat"]);
    let term = "cat".to_string();
    let first = search_term(&index, &term);
    assert_eq!(first, vec![1, 5, 0]);
    assert_eq!(search_term(&index, &term), first);
}

#[test]
fn tfidf_equal_scores_go_by_doc_id() {
    let index = build(&["a b", "c", "d", "b a", "e"]);
    assert_eq!(search_term(&index, &"a".to_string()), vec![0, 3]);
}

#[test]
fn multi_term_with_an_absent_term_is_empty() {
    let index = build(&ANIMALS);
    let query = MultiTermQuery::new(vec!["fox".to_string(), "mouse".to_string()]);
    assert_eq!(search_multi_term(&index, query), Vec::<usize>::new());
    let query = MultiTermQuery::new(vec!["mouse".to_string(), "fox".to_string()]);
    assert_eq!(search_multi_term(&index, query), Vec::<usize>::new());
    let query = MultiTermQuery::new(vec![]);
    assert_eq!(search_multi_term(&index, query), Vec::<usize>::new());
}

#[test]
fn multi_term_repeated_term_same_as_once() {
    let index = build(&ANIMALS);
    let once = search_multi_term(&index, MultiTermQuery::new(vec!["fox".to_string()]));
    let twice = search_multi_term(
        &index,
        MultiTermQuery::new(vec!["fox".to_string(), "fox".to_string()]),
    );
    assert_eq!(once, vec![1, 2]);
    assert_eq!(twice, once);
}

#[test]
fn end_to_end_animals() {
    let index = build(&ANIMALS);
    assert_eq!(search_term(&index, &"dog".to_string()), vec![0, 1, 2]);
    let query = MultiTermQuery::new(vec!["dog".to_string(), "fox".to_string()]);
    assert_eq!(search_multi_term(&index, query), vec![1, 2]);
}

#[test]
fn end_to_end_single_document_positions() {
    let index = build(&["I am Taisuke"]);
    let list = index.postings(&"Taisuke".to_string()).unwrap();
    assert_eq!(list.postings.len(), 1);
    assert_eq!(list.postings[0].positions, vec![2]);
    assert_eq!(index.tf(0, &"Taisuke".to_string()), (1, 3));
    assert_eq!(search_term(&index, &"Taisuke".to_string()), vec![0]);
}

#[test]
fn end_to_end_absent_term() {
    let index = build(&ANIMALS);
    assert_eq!(search_term(&index, &"foo".to_string()), Vec::<usize>::new());
    let query = MultiTermQuery::new(vec!["foo".to_string()]);
    assert_eq!(search_multi_term(&index, query), Vec::<usize>::new());
    assert!(index.postings(&"foo".to_string()).is_none());
}

#[test]
fn empty_corpus_and_empty_document() {
    let index = build(&[]);
    assert_eq!(index.doc_count(), 0);
    assert_eq!(index.num_terms(), 0);
    assert_eq!(search_term(&index, &"a".to_string()), Vec::<usize>::new());

    let index = build(&["", "a"]);
    assert_eq!(index.doc_count(), 2);
    assert_eq!(index.tf(0, &"a".to_string()), (0, 0));
    assert_eq!(index.tf(1, &"a".to_string()), (1, 1));
    assert_eq!(index.tf(7, &"a".to_string()), (0, 0));
    let query = MultiTermQuery::new(vec!["a".to_string()]);
    assert_eq!(search_multi_term(&index, query), vec![1]);
}

#[test]
fn punctuation_is_not_indexed() {
    let index = build(&["dog. cat"]);
    assert!(index.postings(&".".to_string()).is_none());
    assert_eq!(
        index.postings(&"cat".to_string()).unwrap().postings[0].positions,
        vec![2]
    );
}
