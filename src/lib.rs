//! A small full-text search core: a positional inverted index over
//! tokenized documents, tf-idf ranking for one term, and conjunctive
//! multi-term lookup by a leapfrog walk over sorted posting lists.
use vstd::prelude::*;

pub mod dict;
pub mod doc;
pub mod index;
pub mod model;
pub mod query;
pub mod rank;
pub mod token;
pub mod writer;

pub use dict::TermDict;
pub use doc::Document;
pub use index::{PositionalIndex, PostingData, PostingList};
pub use query::{search_multi_term, DocIterator, MultiTermQuery};
pub use rank::search_term;
pub use token::{
    segments_to_tokens, split_tokens_at, whitespace_tokenize, Segment, Token, TokenKind, TokenizeType,
};
pub use writer::{IndexWriter, IndexWriterConfig};

use query::matching_docs;
use token::{token_models, whitespace_tokens, TokenModel};

verus! {

/// The texts of the term tokens of a query, in order.
pub open spec fn query_terms(toks: Seq<TokenModel>) -> Seq<Seq<char>>
    decreases toks.len(),
{
    if toks.len() == 0 {
        Seq::empty()
    } else {
        let prev = query_terms(toks.drop_last());
        if toks.last().is_term {
            prev.push(toks.last().text)
        } else {
            prev
        }
    }
}

/// The token sequences of a batch of tokenized documents.
pub open spec fn batch_corpus(docs: Seq<(Document, Vec<Token>)>) -> Seq<Seq<TokenModel>> {
    docs.map_values(|e: (Document, Vec<Token>)| token_models(e.1@))
}

/// The term strings of a query's term tokens.
fn term_strings(query: &Vec<Token>) -> (r: Vec<String>)
    ensures
        r@.map_values(|s: String| s@) == query_terms(token_models(query@)),
{
    let mut terms: Vec<String> = Vec::new();
    let mut k: usize = 0;
    while k < query.len()
        invariant
            k <= query.len(),
            terms@.map_values(|s: String| s@) == query_terms(token_models(query@).take(k as int)),
        decreases query.len() - k,
    {
        proof {
            let toks = token_models(query@);
            assert(toks.take(k + 1).drop_last() =~= toks.take(k as int));
            assert(toks.take(k + 1).last() == query@[k as int]@);
        }
        match &query[k].kind {
            TokenKind::Term(t) => {
                let ghost before = terms@;
                terms.push(t.clone());
                proof {
                    assert(terms@.map_values(|s: String| s@) =~= before.map_values(|s: String| s@).push(t@));
                }
            },
            TokenKind::Punct(_) => {},
        }
        k = k + 1;
    }
    proof {
        assert(token_models(query@).take(k as int) =~= token_models(query@));
    }
    terms
}

/// Indexes `docs`, each with the tokens its body was split into, and
/// returns, in id order, the documents that hold every term of `query`
/// (tokens of the query text, split the same way).
pub fn search_main(docs: &Vec<(Document, Vec<Token>)>, query: &Vec<Token>) -> (r: Vec<Document>)
    requires
        docs@.len() < usize::MAX,
    ensures
        ({
            let m = matching_docs(batch_corpus(docs@), query_terms(token_models(query@)));
            &&& r@.len() == m.len()
            &&& forall|i: int| 0 <= i < m.len() ==> #[trigger] r@[i].body@ == docs@[m[i] as int].0.body@
        }),
{
    let ghost corpus = batch_corpus(docs@);
    let mut index_writer = IndexWriter::new();
    let mut k: usize = 0;
    proof {
        assert(corpus.take(0) =~= index_writer.corpus());
    }
    while k < docs.len()
        invariant
            corpus == batch_corpus(docs@),
            docs@.len() < usize::MAX,
            k <= docs.len(),
            index_writer.wf(),
            index_writer.corpus() == corpus.take(k as int),
            index_writer.bodies().len() == k,
            forall|d: int| 0 <= d < k ==> #[trigger] index_writer.bodies()[d] == docs@[d].0.body@,
        decreases docs.len() - k,
    {
        let entry = &docs[k];
        let doc = Document::new(entry.0.body.clone());
        let ghost before = index_writer.bodies();
        index_writer.write(doc, &entry.1);
        proof {
            assert(corpus.take(k + 1) =~= corpus.take(k as int).push(token_models(entry.1@)));
            assert forall|d: int| 0 <= d < k + 1 implies #[trigger] index_writer.bodies()[d] == docs@[d].0.body@ by {
                if d < k {
                    assert(index_writer.bodies()[d] == before[d]);
                }
            }
        }
        k = k + 1;
    }
    let index = index_writer.build();
    proof {
        assert(corpus.take(k as int) =~= corpus);
    }
    let query = MultiTermQuery::new(term_strings(query));
    let ids = search_multi_term(&index, query);
    let ghost m = ids@;
    let mut r: Vec<Document> = Vec::new();
    let mut i: usize = 0;
    proof {
        assert forall|j: int| 0 <= j < m.len() implies #[trigger] m[j] < corpus.len() by {
            query::lemma_matches_in_range(corpus, query@, corpus.len(), j);
        }
    }
    while i < ids.len()
        invariant
            index.wf(),
            index.corpus() == corpus,
            index.bodies().len() == corpus.len(),
            forall|d: int| 0 <= d < corpus.len() ==> #[trigger] index.bodies()[d] == docs@[d].0.body@,
            m == ids@,
            forall|j: int| 0 <= j < m.len() ==> #[trigger] m[j] < corpus.len(),
            i <= ids.len(),
            r@.len() == i,
            forall|j: int| 0 <= j < i ==> #[trigger] r@[j].body@ == docs@[m[j] as int].0.body@,
        decreases ids.len() - i,
    {
        let id = ids[i];
        proof {
            assert(m[i as int] < corpus.len());
        }
        let stored = index.doc(id).unwrap();
        r.push(Document::new(stored.body.clone()));
        i = i + 1;
    }
    r
}

/// The token sequences of a batch of documents split at whitespace.
pub open spec fn whitespace_corpus(docs: Seq<Document>) -> Seq<Seq<TokenModel>> {
    docs.map_values(|d: Document| whitespace_tokens(d.body@))
}

/// `search_main` with every text split by the whitespace strategy.
pub fn search_whitespace(docs: &Vec<Document>, sentence: &str) -> (r: Vec<Document>)
    requires
        docs@.len() < usize::MAX,
        sentence@.len() <= isize::MAX,
        forall|d: int| 0 <= d < docs@.len() ==> (#[trigger] docs@[d]).body@.len() <= isize::MAX,
    ensures
        ({
            let m = matching_docs(whitespace_corpus(docs@), query_terms(whitespace_tokens(sentence@)));
            &&& r@.len() == m.len()
            &&& forall|i: int| 0 <= i < m.len() ==> #[trigger] r@[i].body@ == docs@[m[i] as int].body@
        }),
{
    let mut batch: Vec<(Document, Vec<Token>)> = Vec::new();
    let mut k: usize = 0;
    while k < docs.len()
        invariant
            k <= docs.len(),
            forall|d: int| 0 <= d < docs@.len() ==> (#[trigger] docs@[d]).body@.len() <= isize::MAX,
            batch@.len() == k,
            forall|d: int| 0 <= d < k ==> (#[trigger] batch@[d]).0.body@ == docs@[d].body@,
            forall|d: int| 0 <= d < k ==> token_models((#[trigger] batch@[d]).1@) == whitespace_tokens(docs@[d].body@),
        decreases docs.len() - k,
    {
        let body = docs[k].body.clone();
        let tokens = whitespace_tokenize(body.as_str());
        batch.push((Document::new(body), tokens));
        k = k + 1;
    }
    let query = whitespace_tokenize(sentence);
    proof {
        assert(batch_corpus(batch@) =~= whitespace_corpus(docs@));
    }
    let r = search_main(&batch, &query);
    proof {
        let corpus = whitespace_corpus(docs@);
        let q = query_terms(whitespace_tokens(sentence@));
        assert forall|i: int| 0 <= i < matching_docs(corpus, q).len() implies #[trigger] r@[i].body@
            == docs@[matching_docs(corpus, q)[i] as int].body@ by {
            query::lemma_matches_in_range(corpus, q, corpus.len(), i);
            let d = matching_docs(corpus, q)[i] as int;
            assert(batch@[d].0.body@ == docs@[d].body@);
        }
    }
    r
}

} // verus!
