use vstd::prelude::*;

use crate::dict::{dict_add, distinct_terms};
use crate::token::TokenModel;

verus! {

/// What a posting records: a document and the positions of a term in it.
pub struct PostingModel {
    pub doc_id: nat,
    pub positions: Seq<nat>,
}

/// The positions at which `t` occurs as a term in a document's tokens, in
/// token order.
pub open spec fn term_positions(toks: Seq<TokenModel>, t: Seq<char>) -> Seq<nat>
    decreases toks.len(),
{
    if toks.len() == 0 {
        Seq::empty()
    } else {
        let prev = term_positions(toks.drop_last(), t);
        if toks.last().is_term && toks.last().text == t {
            prev.push(toks.last().position)
        } else {
            prev
        }
    }
}

/// Whether `t` occurs as a term in a document's tokens.
pub open spec fn occurs(toks: Seq<TokenModel>, t: Seq<char>) -> bool {
    term_positions(toks, t).len() > 0
}

/// Number of term tokens of a document.
pub open spec fn term_total(toks: Seq<TokenModel>) -> nat
    decreases toks.len(),
{
    if toks.len() == 0 {
        0
    } else {
        term_total(toks.drop_last()) + if toks.last().is_term {
            1nat
        } else {
            0nat
        }
    }
}

/// The posting list of `t` over a corpus (the token sequences of the
/// documents, by id): one posting for each document in which `t` occurs,
/// in order of document id.
pub open spec fn postings_of(docs: Seq<Seq<TokenModel>>, t: Seq<char>) -> Seq<PostingModel>
    decreases docs.len(),
{
    if docs.len() == 0 {
        Seq::empty()
    } else {
        let prev = postings_of(docs.drop_last(), t);
        let ps = term_positions(docs.last(), t);
        if ps.len() > 0 {
            prev.push(PostingModel { doc_id: (docs.len() - 1) as nat, positions: ps })
        } else {
            prev
        }
    }
}

/// The dictionary's term list after reading a document's tokens.
pub open spec fn dict_after(d: Seq<Seq<char>>, toks: Seq<TokenModel>) -> Seq<Seq<char>>
    decreases toks.len(),
{
    if toks.len() == 0 {
        d
    } else {
        let prev = dict_after(d, toks.drop_last());
        if toks.last().is_term {
            dict_add(prev, toks.last().text)
        } else {
            prev
        }
    }
}

/// The dictionary's term list after reading a corpus: its distinct terms in
/// order of first occurrence.
pub open spec fn corpus_dict(docs: Seq<Seq<TokenModel>>) -> Seq<Seq<char>>
    decreases docs.len(),
{
    if docs.len() == 0 {
        Seq::empty()
    } else {
        dict_after(corpus_dict(docs.drop_last()), docs.last())
    }
}

/// Postings whose document ids strictly ascend.
pub open spec fn ascending(ps: Seq<PostingModel>) -> bool {
    forall|i: int, j: int| 0 <= i < j < ps.len() ==> ps[i].doc_id < ps[j].doc_id
}

/// Every posting list of every corpus ascends strictly by document id, and
/// names only documents of the corpus.
pub proof fn lemma_postings_ascending(docs: Seq<Seq<TokenModel>>, t: Seq<char>)
    ensures
        ascending(postings_of(docs, t)),
        forall|i: int|
            0 <= i < postings_of(docs, t).len() ==> #[trigger] postings_of(docs, t)[i].doc_id
                < docs.len(),
    decreases docs.len(),
{
    if docs.len() > 0 {
        lemma_postings_ascending(docs.drop_last(), t);
    }
}

/// A document has a posting in the list of `t` exactly when `t` occurs in
/// it, and that posting holds the positions of `t` in it.
pub proof fn lemma_posting_of_doc(docs: Seq<Seq<TokenModel>>, t: Seq<char>, d: int)
    requires
        0 <= d < docs.len(),
    ensures
        occurs(docs[d], t) <==> exists|i: int|
            0 <= i < postings_of(docs, t).len() && #[trigger] postings_of(docs, t)[i].doc_id == d,
        forall|i: int|
            0 <= i < postings_of(docs, t).len() && #[trigger] postings_of(docs, t)[i].doc_id == d
                ==> postings_of(docs, t)[i].positions == term_positions(docs[d], t),
    decreases docs.len(),
{
    let prev = docs.drop_last();
    let pl = postings_of(docs, t);
    let pp = postings_of(prev, t);
    lemma_postings_ascending(prev, t);
    assert(forall|i: int| 0 <= i < pp.len() ==> pl[i] == pp[i]);
    if d < docs.len() - 1 {
        lemma_posting_of_doc(prev, t, d);
        assert(prev[d] == docs[d]);
        if occurs(docs[d], t) {
            let i = choose|i: int| 0 <= i < pp.len() && #[trigger] pp[i].doc_id == d;
            assert(pl[i].doc_id == d);
        }
        if exists|i: int| 0 <= i < pl.len() && #[trigger] pl[i].doc_id == d {
            let i = choose|i: int| 0 <= i < pl.len() && #[trigger] pl[i].doc_id == d;
            assert(i < pp.len());
            assert(pp[i].doc_id == d);
        }
    } else {
        if occurs(docs[d], t) {
            assert(pl[pp.len() as int].doc_id == d);
        }
        if exists|i: int| 0 <= i < pl.len() && #[trigger] pl[i].doc_id == d {
            let i = choose|i: int| 0 <= i < pl.len() && #[trigger] pl[i].doc_id == d;
            assert(i >= pp.len());
        }
    }
}

/// A term has a place in the dictionary after a document exactly when it
/// had one before or occurs in the document; places already given stay.
pub proof fn lemma_dict_after(d: Seq<Seq<char>>, toks: Seq<TokenModel>)
    requires
        distinct_terms(d),
    ensures
        distinct_terms(dict_after(d, toks)),
        forall|t: Seq<char>|
            #[trigger] dict_after(d, toks).contains(t) <==> (d.contains(t) || occurs(toks, t)),
        dict_after(d, toks).len() >= d.len(),
        forall|i: int| 0 <= i < d.len() ==> #[trigger] dict_after(d, toks)[i] == d[i],
    decreases toks.len(),
{
    if toks.len() > 0 {
        let prev = dict_after(d, toks.drop_last());
        lemma_dict_after(d, toks.drop_last());
        if toks.last().is_term && !prev.contains(toks.last().text) {
            let n = prev.push(toks.last().text);
            assert forall|t: Seq<char>| #[trigger] n.contains(t) <==> (prev.contains(t) || t
                == toks.last().text) by {
                if t == toks.last().text {
                    assert(n[prev.len() as int] == t);
                }
                if prev.contains(t) {
                    let k = choose|k: int| 0 <= k < prev.len() && prev[k] == t;
                    assert(n[k] == t);
                }
                if n.contains(t) && t != toks.last().text {
                    let k = choose|k: int| 0 <= k < n.len() && n[k] == t;
                    assert(k < prev.len());
                    assert(prev[k] == t);
                }
            }
        }
    }
}

/// A term is in the dictionary of a corpus exactly when it has postings.
pub proof fn lemma_corpus_dict(docs: Seq<Seq<TokenModel>>)
    ensures
        distinct_terms(corpus_dict(docs)),
        forall|t: Seq<char>|
            #[trigger] corpus_dict(docs).contains(t) <==> postings_of(docs, t).len() > 0,
    decreases docs.len(),
{
    if docs.len() > 0 {
        lemma_corpus_dict(docs.drop_last());
        lemma_dict_after(corpus_dict(docs.drop_last()), docs.last());
        assert forall|t: Seq<char>| #[trigger] corpus_dict(docs).contains(t) <==> postings_of(
            docs,
            t,
        ).len() > 0 by {
            assert(corpus_dict(docs.drop_last()).contains(t) <==> postings_of(
                docs.drop_last(),
                t,
            ).len() > 0);
        }
    }
}

} // verus!
