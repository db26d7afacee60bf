use vstd::prelude::*;

use crate::dict::TermDict;
use crate::doc::Document;
use crate::index::{bodies_of, consistent, PositionalIndex, PostingList};
use crate::model::{
    corpus_dict, lemma_corpus_dict, lemma_postings_ascending, postings_of,
    term_positions, term_total, PostingModel,
};
use crate::token::{token_models, Token, TokenKind, TokenModel, TokenizeType};

verus! {

/// How a writer is set up: the strategy that tokenizes its documents.
#[derive(Debug)]
pub struct IndexWriterConfig {
    pub tokenize_type: TokenizeType,
}

impl Default for IndexWriterConfig {
    fn default() -> (r: IndexWriterConfig)
        ensures
            r.tokenize_type == TokenizeType::Whitespace,
    {
        IndexWriterConfig { tokenize_type: TokenizeType::Whitespace }
    }
}

/// Collects documents one at a time; `build` turns it into an index.
pub struct IndexWriter {
    seq: usize,
    term_dict: TermDict,
    postings: Vec<PostingList>,
    term_counts: Vec<usize>,
    stored: Vec<Document>,
    tokenize_type: TokenizeType,
    corpus: Ghost<Seq<Seq<TokenModel>>>,
}

impl IndexWriter {
    /// The token sequences of the documents written so far, by id.
    pub closed spec fn corpus(&self) -> Seq<Seq<TokenModel>> {
        self.corpus@
    }

    /// The bodies of the documents written so far, by id.
    pub closed spec fn bodies(&self) -> Seq<Seq<char>> {
        bodies_of(self.stored@)
    }

    pub closed spec fn strategy(&self) -> TokenizeType {
        self.tokenize_type
    }

    pub closed spec fn wf(&self) -> bool {
        &&& consistent(self.corpus@, self.term_dict, self.postings@, self.term_counts@, self.stored@)
        &&& self.seq == self.corpus@.len()
    }

    /// A writer for whitespace-tokenized documents.
    pub fn new() -> (r: IndexWriter)
        ensures
            r.wf(),
            r.corpus() == Seq::<Seq<TokenModel>>::empty(),
            r.bodies() == Seq::<Seq<char>>::empty(),
            r.strategy() == TokenizeType::Whitespace,
    {
        IndexWriter::with_config(IndexWriterConfig::default())
    }

    pub fn with_config(config: IndexWriterConfig) -> (r: IndexWriter)
        ensures
            r.wf(),
            r.corpus() == Seq::<Seq<TokenModel>>::empty(),
            r.bodies() == Seq::<Seq<char>>::empty(),
            r.strategy() == config.tokenize_type,
    {
        let r = IndexWriter {
            seq: 0,
            term_dict: TermDict::new(),
            postings: Vec::new(),
            term_counts: Vec::new(),
            stored: Vec::new(),
            tokenize_type: config.tokenize_type,
            corpus: Ghost(Seq::empty()),
        };
        proof {
            assert(r.bodies() =~= Seq::<Seq<char>>::empty());
        }
        r
    }

    /// The strategy that documents of this writer are tokenized with.
    pub fn tokenize_type(&self) -> (r: TokenizeType)
        ensures
            r == self.strategy(),
    {
        self.tokenize_type
    }

    /// Number of documents written so far.
    pub fn doc_count(&self) -> (r: usize)
        requires
            self.wf(),
        ensures
            r == self.corpus().len(),
    {
        self.seq
    }

    fn seq_incr(&mut self) -> (r: usize)
        requires
            old(self).seq < usize::MAX,
        ensures
            r == old(self).seq,
            final(self).seq == old(self).seq + 1,
            final(self).term_dict == old(self).term_dict,
            final(self).postings == old(self).postings,
            final(self).term_counts == old(self).term_counts,
            final(self).stored == old(self).stored,
            final(self).tokenize_type == old(self).tokenize_type,
            final(self).corpus == old(self).corpus,
    {
        let curr = self.seq;
        self.seq = self.seq + 1;
        curr
    }

    /// Adds `doc`, whose body the writer's strategy split into `tokens`, as
    /// the document with the next id. Its terms get dictionary ids, and its
    /// positions go to their posting lists; punctuation is not indexed.
    pub fn write(&mut self, doc: Document, tokens: &Vec<Token>)
        requires
            old(self).wf(),
            old(self).corpus().len() < usize::MAX,
        ensures
            final(self).wf(),
            final(self).corpus() == old(self).corpus().push(token_models(tokens@)),
            final(self).bodies() == old(self).bodies().push(doc.body@),
            final(self).strategy() == old(self).strategy(),
    {
        let ghost old_corpus = self.corpus@;
        let ghost toks = token_models(tokens@);
        let id = self.seq_incr();
        let mut count: usize = 0;
        let mut k: usize = 0;
        proof {
            lemma_corpus_dict(old_corpus);
            assert(toks.take(0) =~= Seq::<TokenModel>::empty());
            assert(old_corpus.push(toks.take(0)).drop_last() =~= old_corpus);
            lemma_extend_empty(old_corpus);
        }
        while k < tokens.len()
            invariant
                id == old_corpus.len(),
                id < usize::MAX,
                self.seq == id + 1,
                toks == token_models(tokens@),
                k <= tokens.len(),
                count <= k,
                count == term_total(toks.take(k as int)),
                self.term_dict.wf(),
                self.term_dict@ == corpus_dict(old_corpus.push(toks.take(k as int))),
                self.postings@.len() == self.term_dict@.len(),
                forall|i: int|
                    0 <= i < self.postings@.len() ==> #[trigger] self.postings@[i]@ == postings_of(
                        old_corpus.push(toks.take(k as int)),
                        self.term_dict@[i],
                    ),
                self.term_counts@.len() == old_corpus.len(),
                forall|d: int|
                    0 <= d < old_corpus.len() ==> #[trigger] self.term_counts@[d] == term_total(
                        old_corpus[d],
                    ),
                self.stored@ == old(self).stored@,
                self.tokenize_type == old(self).tokenize_type,
                self.corpus@ == old_corpus,
            decreases tokens.len() - k,
        {
            let ghost before = old_corpus.push(toks.take(k as int));
            let ghost after = old_corpus.push(toks.take(k + 1));
            proof {
                assert(toks.take(k + 1).drop_last() =~= toks.take(k as int));
                assert(toks.take(k + 1).last() == toks[k as int]);
                assert(after.drop_last() =~= old_corpus);
                assert(before.drop_last() =~= old_corpus);
                assert(toks[k as int] == tokens@[k as int]@);
            }
            match &tokens[k].kind {
                TokenKind::Term(t) => {
                    let ghost old_dict = self.term_dict@;
                    let ghost old_postings = self.postings@;
                    let idx = self.term_dict.add_term(t.as_str());
                    proof {
                        lemma_corpus_dict(before);
                        lemma_corpus_dict(after);
                        assert(self.term_dict@ == corpus_dict(after));
                    }
                    if idx == self.postings.len() {
                        proof {
                            assert(!old_dict.contains(t@));
                            assert(postings_of(before, t@).len() == 0);
                        }
                        self.postings.push(PostingList::new());
                    }
                    let ghost mid_postings = self.postings@;
                    proof {
                        assert(mid_postings[idx as int]@ == postings_of(before, t@)) by {
                            if idx < old_postings.len() {
                                assert(old_dict[idx as int] == t@);
                            }
                        }
                        lemma_step_term(old_corpus, toks.take(k as int), toks[k as int], t@);
                        lemma_postings_ascending(old_corpus, t@);
                    }
                    let pos = tokens[k].position;
                    let ghost list_before = self.postings@[idx as int];
                    self.postings[idx].add_position(id, pos);
                    let ghost list = self.postings@[idx as int];
                    proof {
                        assert forall|i: int| 0 <= i < self.postings@.len() implies #[trigger] self.postings@[i]@
                            == postings_of(after, self.term_dict@[i]) by {
                            if i != idx {
                                assert(self.postings@[i] == mid_postings[i]);
                                assert(self.term_dict@[i] != t@);
                                lemma_step_other(old_corpus, toks.take(k as int), toks[k as int], self.term_dict@[i]);
                                if i < old_dict.len() {
                                    assert(old_dict[i] == self.term_dict@[i]);
                                }
                            } else {
                                let pb = postings_of(old_corpus, t@);
                                let tp = term_positions(toks.take(k as int), t@);
                                assert(self.postings@[i] == list);
                                assert(pos as nat == toks[k as int].position);
                                if tp.len() > 0 {
                                    assert(list_before@.last().doc_id == id);
                                    assert(list@ =~= postings_of(after, t@));
                                } else {
                                    if pb.len() > 0 {
                                        assert(pb[pb.len() - 1].doc_id < old_corpus.len());
                                    }
                                    assert(tp.push(pos as nat) =~= seq![pos as nat]);
                                    assert(list@ =~= postings_of(after, t@));
                                }
                                assert(self.postings@[i]@ =~= postings_of(after, t@));
                            }
                        }
                    }
                    count = count + 1;
                },
                TokenKind::Punct(_) => {
                    proof {
                        assert forall|i: int| 0 <= i < self.postings@.len() implies #[trigger] self.postings@[i]@
                            == postings_of(after, self.term_dict@[i]) by {
                            lemma_step_other(old_corpus, toks.take(k as int), toks[k as int], self.term_dict@[i]);
                        }
                        assert(corpus_dict(after) == corpus_dict(before));
                    }
                },
            }
            k = k + 1;
        }
        proof {
            assert(toks.take(k as int) =~= toks);
        }
        self.term_counts.push(count);
        self.stored.push(doc);
        self.corpus = Ghost(old_corpus.push(toks));
        proof {
            assert(self.term_counts@.len() == self.corpus@.len());
            assert forall|d: int| 0 <= d < self.corpus@.len() implies #[trigger] self.term_counts@[d]
                == term_total(self.corpus@[d]) by {
                if d < old_corpus.len() {
                    assert(self.corpus@[d] == old_corpus[d]);
                }
            }
            assert(self.bodies() =~= old(self).bodies().push(doc.body@));
        }
    }

    /// Turns the writer into the index of what it read.
    pub fn build(self) -> (r: PositionalIndex)
        requires
            self.wf(),
        ensures
            r.wf(),
            r.corpus() == self.corpus(),
            r.bodies() == self.bodies(),
    {
        PositionalIndex {
            doc_count: self.seq,
            dict: self.term_dict,
            postings: self.postings,
            term_counts: self.term_counts,
            stored: self.stored,
            corpus: self.corpus,
        }
    }
}

/// The corpus with an empty last document has the postings of the corpus.
proof fn lemma_extend_empty(docs: Seq<Seq<TokenModel>>)
    ensures
        corpus_dict(docs.push(Seq::empty())) == corpus_dict(docs),
        forall|t: Seq<char>| #[trigger] postings_of(docs.push(Seq::empty()), t) == postings_of(docs, t),
{
    assert(docs.push(Seq::<TokenModel>::empty()).drop_last() =~= docs);
    assert forall|t: Seq<char>| #[trigger] postings_of(docs.push(Seq::empty()), t) == postings_of(docs, t) by {
        assert(term_positions(Seq::<TokenModel>::empty(), t) =~= Seq::<nat>::empty());
    }
}

/// Reading one more term token `tok` (of text `t`) in the last document.
proof fn lemma_step_term(docs: Seq<Seq<TokenModel>>, prefix: Seq<TokenModel>, tok: TokenModel, t: Seq<char>)
    requires
        tok.is_term,
        tok.text == t,
    ensures
        term_positions(prefix.push(tok), t) == term_positions(prefix, t).push(tok.position),
        ({
            let before = postings_of(docs.push(prefix), t);
            let after = postings_of(docs.push(prefix.push(tok)), t);
            let pb = postings_of(docs, t);
            &&& before == if term_positions(prefix, t).len() > 0 {
                pb.push(PostingModel { doc_id: docs.len(), positions: term_positions(prefix, t) })
            } else {
                pb
            }
            &&& after == pb.push(PostingModel { doc_id: docs.len(), positions: term_positions(prefix, t).push(tok.position) })
        }),
{
    assert(prefix.push(tok).drop_last() =~= prefix);
    assert(docs.push(prefix).drop_last() =~= docs);
    assert(docs.push(prefix.push(tok)).drop_last() =~= docs);
}

/// Reading one more token leaves the postings of every other term alone.
proof fn lemma_step_other(docs: Seq<Seq<TokenModel>>, prefix: Seq<TokenModel>, tok: TokenModel, u: Seq<char>)
    requires
        !(tok.is_term && tok.text == u),
    ensures
        postings_of(docs.push(prefix.push(tok)), u) == postings_of(docs.push(prefix), u),
        !tok.is_term ==> corpus_dict(docs.push(prefix.push(tok))) == corpus_dict(docs.push(prefix)),
{
    assert(prefix.push(tok).drop_last() =~= prefix);
    assert(docs.push(prefix).drop_last() =~= docs);
    assert(docs.push(prefix.push(tok)).drop_last() =~= docs);
}

} // verus!
