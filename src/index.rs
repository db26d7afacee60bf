use vstd::prelude::*;

use crate::dict::TermDict;
use crate::doc::Document;
use crate::model::{corpus_dict, lemma_corpus_dict, postings_of, term_total, PostingModel};
use crate::token::TokenModel;

verus! {

/// A term's occurrences in one document.
#[derive(Debug, PartialEq)]
pub struct PostingData {
    pub doc_id: usize,
    pub positions: Vec<usize>,
}

impl View for PostingData {
    type V = PostingModel;

    open spec fn view(&self) -> PostingModel {
        PostingModel {
            doc_id: self.doc_id as nat,
            positions: self.positions@.map_values(|p: usize| p as nat),
        }
    }
}

/// A term's postings, by ascending document id.
#[derive(Debug, PartialEq)]
pub struct PostingList {
    pub postings: Vec<PostingData>,
}

impl View for PostingList {
    type V = Seq<PostingModel>;

    open spec fn view(&self) -> Seq<PostingModel> {
        self.postings@.map_values(|p: PostingData| p@)
    }
}

impl PostingList {
    pub fn new() -> (r: PostingList)
        ensures
            r@ == Seq::<PostingModel>::empty(),
    {
        PostingList { postings: Vec::new() }
    }

    pub fn push(&mut self, posting: PostingData)
        ensures
            final(self)@ == old(self)@.push(posting@),
    {
        self.postings.push(posting);
        proof {
            assert(final(self)@ =~= old(self)@.push(posting@));
        }
    }

    /// Records `position` for document `doc_id`: in the last posting if it
    /// is that document's, else in a new posting.
    pub fn add_position(&mut self, doc_id: usize, position: usize)
        ensures
            old(self)@.len() > 0 && old(self)@.last().doc_id == doc_id ==> final(self)@
                == old(self)@.update(
                old(self)@.len() - 1,
                PostingModel {
                    doc_id: doc_id as nat,
                    positions: old(self)@.last().positions.push(position as nat),
                },
            ),
            !(old(self)@.len() > 0 && old(self)@.last().doc_id == doc_id) ==> final(self)@
                == old(self)@.push(PostingModel { doc_id: doc_id as nat, positions: seq![position as nat] }),
    {
        let n = self.postings.len();
        if n > 0 && self.postings[n - 1].doc_id == doc_id {
            let mut last = self.postings.pop().unwrap();
            let ghost before = last.positions@;
            last.positions.push(position);
            proof {
                assert(last@.positions =~= before.map_values(|p: usize| p as nat).push(position as nat));
            }
            self.postings.push(last);
            proof {
                assert(final(self)@ =~= old(self)@.update(
                    old(self)@.len() - 1,
                    PostingModel {
                        doc_id: doc_id as nat,
                        positions: old(self)@.last().positions.push(position as nat),
                    },
                ));
            }
        } else {
            let mut positions: Vec<usize> = Vec::new();
            positions.push(position);
            let posting = PostingData { doc_id, positions };
            proof {
                assert(posting@.positions =~= seq![position as nat]);
            }
            self.push(posting);
        }
    }
}

/// The built, read-only index: posting lists by term id, the stored
/// documents and their term counts by document id.
pub struct PositionalIndex {
    pub(crate) doc_count: usize,
    pub(crate) dict: TermDict,
    pub(crate) postings: Vec<PostingList>,
    pub(crate) term_counts: Vec<usize>,
    pub(crate) stored: Vec<Document>,
    pub(crate) corpus: Ghost<Seq<Seq<TokenModel>>>,
}

/// The bodies of stored documents.
pub open spec fn bodies_of(v: Seq<Document>) -> Seq<Seq<char>> {
    v.map_values(|d: Document| d.body@)
}

/// The fields of an index, or of a writer, agree with the corpus it read.
pub open spec fn consistent(
    corpus: Seq<Seq<TokenModel>>,
    dict: TermDict,
    postings: Seq<PostingList>,
    term_counts: Seq<usize>,
    stored: Seq<Document>,
) -> bool {
    &&& dict.wf()
    &&& dict@ == corpus_dict(corpus)
    &&& postings.len() == dict@.len()
    &&& forall|i: int| 0 <= i < postings.len() ==> #[trigger] postings[i]@ == postings_of(corpus, dict@[i])
    &&& term_counts.len() == corpus.len()
    &&& forall|d: int| 0 <= d < corpus.len() ==> #[trigger] term_counts[d] == term_total(corpus[d])
    &&& stored.len() == corpus.len()
}

impl PositionalIndex {
    /// The token sequences of the indexed documents, by document id.
    pub open(crate) spec fn corpus(&self) -> Seq<Seq<TokenModel>> {
        self.corpus@
    }

    /// The bodies of the indexed documents, by document id.
    pub open(crate) spec fn bodies(&self) -> Seq<Seq<char>> {
        bodies_of(self.stored@)
    }

    pub open(crate) spec fn wf(&self) -> bool {
        &&& consistent(self.corpus@, self.dict, self.postings@, self.term_counts@, self.stored@)
        &&& self.doc_count == self.corpus@.len()
    }

    /// Number of indexed documents.
    pub fn doc_count(&self) -> (r: usize)
        requires
            self.wf(),
        ensures
            r == self.corpus().len(),
    {
        self.doc_count
    }

    /// The stored document with id `id`.
    pub fn doc(&self, id: usize) -> (r: Option<&Document>)
        requires
            self.wf(),
        ensures
            id < self.corpus().len() ==> r.is_some() && r.unwrap().body@ == self.bodies()[id as int],
            id >= self.corpus().len() ==> r.is_none(),
    {
        if id < self.stored.len() {
            Some(&self.stored[id])
        } else {
            None
        }
    }

    /// Number of distinct terms indexed.
    pub fn num_terms(&self) -> (r: usize)
        requires
            self.wf(),
        ensures
            r == corpus_dict(self.corpus()).len(),
    {
        self.dict.len()
    }

    /// The term id of `term` and its posting list, if it occurs anywhere.
    pub(crate) fn lookup(&self, term: &String) -> (r: Option<usize>)
        requires
            self.wf(),
        ensures
            r.is_some() <==> postings_of(self.corpus(), term@).len() > 0,
            r.is_some() ==> r.unwrap() < self.postings@.len() && self.postings@[r.unwrap() as int]@
                == postings_of(self.corpus(), term@),
    {
        proof {
            lemma_corpus_dict(self.corpus());
        }
        let r = self.dict.index(term);
        proof {
            if r.is_some() {
                crate::dict::lemma_dict_round_trip(self.dict);
                assert(self.dict@.contains(term@)) by {
                    assert(self.dict@[r.unwrap() as int] == term@);
                }
            }
            if self.dict@.contains(term@) {
                crate::dict::lemma_dict_round_trip(self.dict);
            }
        }
        r
    }

    /// The posting list of `term`, if it occurs in some document.
    pub fn postings(&self, term: &String) -> (r: Option<&PostingList>)
        requires
            self.wf(),
        ensures
            r.is_some() <==> postings_of(self.corpus(), term@).len() > 0,
            r.is_some() ==> r.unwrap()@ == postings_of(self.corpus(), term@),
    {
        match self.lookup(term) {
            Some(i) => Some(&self.postings[i]),
            None => None,
        }
    }
}

} // verus!
