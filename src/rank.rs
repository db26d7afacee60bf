use vstd::prelude::*;

use crate::index::PositionalIndex;
use crate::model::{
    PostingModel, lemma_posting_of_doc, lemma_postings_ascending, occurs, postings_of,
    term_positions, term_total,
};
use crate::token::TokenModel;

verus! {

/// How often `t` occurs in document `d`.
pub open spec fn occurrences(docs: Seq<Seq<TokenModel>>, d: int, t: Seq<char>) -> int {
    term_positions(docs[d], t).len() as int
}

/// Number of term tokens of document `d`.
pub open spec fn doc_terms(docs: Seq<Seq<TokenModel>>, d: int) -> int {
    term_total(docs[d]) as int
}

/// The inverse document frequency of `t`, `log2(n / (df + 1))` floored at
/// zero, is positive: more than `df + 1` documents are indexed.
pub open spec fn idf_positive(docs: Seq<Seq<TokenModel>>, t: Seq<char>) -> bool {
    docs.len() > postings_of(docs, t).len() + 1
}

/// Document `a` ranks before document `b` for term `t`. The tf-idf score is
/// `tf * idf`, with `tf = occurrences / doc_terms`. When idf is zero every
/// score is zero; otherwise scores order as the tf fractions do. Equal scores
/// go by ascending document id.
#[verifier::opaque]
pub open spec fn ranks_before(docs: Seq<Seq<TokenModel>>, t: Seq<char>, a: int, b: int) -> bool {
    let lhs = occurrences(docs, a, t) * doc_terms(docs, b);
    let rhs = occurrences(docs, b, t) * doc_terms(docs, a);
    if idf_positive(docs, t) {
        lhs > rhs || (lhs == rhs && a < b)
    } else {
        a < b
    }
}

/// The documents that hold `t`, in the order of its posting list.
pub open spec fn holders(docs: Seq<Seq<TokenModel>>, t: Seq<char>) -> Seq<usize> {
    postings_of(docs, t).map_values(|p: PostingModel| p.doc_id as usize)
}

/// `r` lists the documents that hold `t`, each once, best score first.
pub open spec fn is_ranking(docs: Seq<Seq<TokenModel>>, t: Seq<char>, r: Seq<usize>) -> bool {
    &&& r.len() == holders(docs, t).len()
    &&& forall|x: usize| #[trigger] r.contains(x) <==> holders(docs, t).contains(x)
    &&& forall|i: int, j: int|
        0 <= i < j < r.len() ==> ranks_before(docs, t, #[trigger] r[i] as int, #[trigger] r[j] as int)
}

/// Whether `oa / ta > ob / tb`, for positive `ta` and `tb`.
fn fraction_greater(oa: usize, ta: usize, ob: usize, tb: usize) -> (r: bool)
    ensures
        r == (oa as int * tb as int > ob as int * ta as int),
{
    proof {
        lemma_u128_product(oa, tb);
        lemma_u128_product(ob, ta);
    }
    let x = (oa as u128) * (tb as u128);
    let y = (ob as u128) * (ta as u128);
    x > y
}

proof fn lemma_u128_product(a: usize, b: usize)
    ensures
        (a as int) * (b as int) <= u128::MAX,
{
    assert(a <= u64::MAX && b <= u64::MAX);
    assert((a as int) * (b as int) <= (u64::MAX as int) * (u64::MAX as int)) by (nonlinear_arith)
        requires
            0 <= a <= u64::MAX,
            0 <= b <= u64::MAX,
    ;
}

/// A document never has more occurrences of a term than terms.
proof fn lemma_occurrences_le_total(toks: Seq<TokenModel>, t: Seq<char>)
    ensures
        term_positions(toks, t).len() <= term_total(toks),
    decreases toks.len(),
{
    if toks.len() > 0 {
        lemma_occurrences_le_total(toks.drop_last(), t);
    }
}

proof fn lemma_cross_ge(oa: int, ta: int, ob: int, tb: int, oc: int, tc: int)
    requires
        ta > 0,
        tb > 0,
        tc > 0,
        oa * tb >= ob * ta,
        ob * tc >= oc * tb,
    ensures
        oa * tc >= oc * ta,
        oa * tb > ob * ta || ob * tc > oc * tb ==> oa * tc > oc * ta,
{
    assert(tc * (oa * tb) >= tc * (ob * ta)) by (nonlinear_arith)
        requires
            tc > 0,
            oa * tb >= ob * ta,
    ;
    assert(ta * (ob * tc) >= ta * (oc * tb)) by (nonlinear_arith)
        requires
            ta > 0,
            ob * tc >= oc * tb,
    ;
    assert(tb * (oa * tc) >= tb * (oc * ta)) by (nonlinear_arith)
        requires
            tc * (oa * tb) >= tc * (ob * ta),
            ta * (ob * tc) >= ta * (oc * tb),
    ;
    assert(oa * tc >= oc * ta) by (nonlinear_arith)
        requires
            tb > 0,
            tb * (oa * tc) >= tb * (oc * ta),
    ;
    if oa * tb > ob * ta || ob * tc > oc * tb {
        assert(tc * (oa * tb) > tc * (ob * ta) || ta * (ob * tc) > ta * (oc * tb)) by (nonlinear_arith)
            requires
                tc > 0,
                ta > 0,
                oa * tb > ob * ta || ob * tc > oc * tb,
        ;
        assert(tb * (oa * tc) > tb * (oc * ta)) by (nonlinear_arith)
            requires
                tc * (oa * tb) >= tc * (ob * ta),
                ta * (ob * tc) >= ta * (oc * tb),
                tc * (oa * tb) > tc * (ob * ta) || ta * (ob * tc) > ta * (oc * tb),
        ;
        assert(oa * tc > oc * ta) by (nonlinear_arith)
            requires
                tb > 0,
                tb * (oa * tc) > tb * (oc * ta),
        ;
    }
}

/// Documents that hold `t` have a positive number of terms.
proof fn lemma_holder_terms(docs: Seq<Seq<TokenModel>>, t: Seq<char>, d: int)
    requires
        0 <= d < docs.len(),
        occurs(docs[d], t),
    ensures
        doc_terms(docs, d) >= occurrences(docs, d, t) > 0,
{
    lemma_occurrences_le_total(docs[d], t);
}

/// Ranking is a strict total order on the documents that hold the term.
pub proof fn lemma_ranks_order(docs: Seq<Seq<TokenModel>>, t: Seq<char>, a: int, b: int, c: int)
    requires
        0 <= a < docs.len(),
        0 <= b < docs.len(),
        0 <= c < docs.len(),
        occurs(docs[a], t),
        occurs(docs[b], t),
        occurs(docs[c], t),
    ensures
        !(ranks_before(docs, t, a, b) && ranks_before(docs, t, b, a)),
        a != b ==> ranks_before(docs, t, a, b) || ranks_before(docs, t, b, a),
        ranks_before(docs, t, a, b) && ranks_before(docs, t, b, c) ==> ranks_before(docs, t, a, c),
{
    reveal(ranks_before);
    lemma_holder_terms(docs, t, a);
    lemma_holder_terms(docs, t, b);
    lemma_holder_terms(docs, t, c);
    let oa = occurrences(docs, a, t);
    let ob = occurrences(docs, b, t);
    let oc = occurrences(docs, c, t);
    let ta = doc_terms(docs, a);
    let tb = doc_terms(docs, b);
    let tc = doc_terms(docs, c);
    if idf_positive(docs, t) && ranks_before(docs, t, a, b) && ranks_before(docs, t, b, c) {
        lemma_cross_ge(oa, ta, ob, tb, oc, tc);
        if oa * tc == oc * ta {
            lemma_cross_ge(oc, tc, oa, ta, ob, tb);
            lemma_cross_ge(ob, tb, oc, tc, oa, ta);
        }
    }
}

/// Two rankings of one term over one index are the same sequence: re-running
/// the search always gives the same order.
pub proof fn lemma_ranking_unique(docs: Seq<Seq<TokenModel>>, t: Seq<char>, r1: Seq<usize>, r2: Seq<usize>)
    requires
        docs.len() <= usize::MAX,
        is_ranking(docs, t, r1),
        is_ranking(docs, t, r2),
    ensures
        r1 == r2,
{
    lemma_holders_occur(docs, t);
    lemma_prefix_equal(docs, t, r1, r2, r1.len() as int);
    assert(r1 =~= r2);
}

/// Every listed holder is a document of the corpus that holds `t`.
proof fn lemma_holders_occur(docs: Seq<Seq<TokenModel>>, t: Seq<char>)
    requires
        docs.len() <= usize::MAX,
    ensures
        forall|x: usize|
            #[trigger] holders(docs, t).contains(x) ==> x < docs.len() && occurs(docs[x as int], t),
{
    let ps = postings_of(docs, t);
    lemma_postings_ascending(docs, t);
    assert forall|x: usize| #[trigger] holders(docs, t).contains(x) implies x < docs.len() && occurs(
        docs[x as int],
        t,
    ) by {
        let j = choose|j: int| 0 <= j < holders(docs, t).len() && holders(docs, t)[j] == x;
        assert(ps[j].doc_id < docs.len());
        assert(ps[j].doc_id == x);
        lemma_posting_of_doc(docs, t, x as int);
    }
}

/// Two rankings agree on their first `n` entries.
proof fn lemma_prefix_equal(docs: Seq<Seq<TokenModel>>, t: Seq<char>, r1: Seq<usize>, r2: Seq<usize>, n: int)
    requires
        is_ranking(docs, t, r1),
        is_ranking(docs, t, r2),
        0 <= n <= r1.len(),
        forall|x: usize|
            #[trigger] holders(docs, t).contains(x) ==> x < docs.len() && occurs(docs[x as int], t),
    ensures
        forall|p: int| 0 <= p < n ==> r1[p] == r2[p],
    decreases n,
{
    if n > 0 {
        let i = n - 1;
        lemma_prefix_equal(docs, t, r1, r2, i);
        let x = r1[i];
        let y = r2[i];
        assert(r1.contains(x));
        assert(r2.contains(y));
        assert(r2.contains(x));
        assert(r1.contains(y));
        let k = choose|k: int| 0 <= k < r2.len() && r2[k] == x;
        let m = choose|m: int| 0 <= m < r1.len() && r1[m] == y;
        lemma_ranks_order(docs, t, x as int, y as int, y as int);
        lemma_ranks_order(docs, t, x as int, x as int, x as int);
        lemma_ranks_order(docs, t, y as int, y as int, y as int);
        if x != y {
            if k < i {
                assert(r1[k] == r2[k]);
                assert(ranks_before(docs, t, r1[k] as int, r1[i] as int));
            } else if m < i {
                assert(r1[m] == r2[m]);
                assert(ranks_before(docs, t, r2[m] as int, r2[i] as int));
            } else {
                assert(ranks_before(docs, t, r2[i] as int, r2[k] as int));
                assert(ranks_before(docs, t, r1[i] as int, r1[m] as int));
            }
        }
    }
}

/// A search key of a document for term `t`: its id, its occurrences of `t`
/// and its number of terms.
spec fn key_ok(docs: Seq<Seq<TokenModel>>, t: Seq<char>, key: (usize, usize, usize)) -> bool {
    &&& key.0 < docs.len()
    &&& occurs(docs[key.0 as int], t)
    &&& key.1 == occurrences(docs, key.0 as int, t)
    &&& key.2 == doc_terms(docs, key.0 as int)
}

spec fn key_docs(keys: Seq<(usize, usize, usize)>) -> Seq<usize> {
    keys.map_values(|k: (usize, usize, usize)| k.0)
}

/// Whether the document of key `x` ranks before that of key `y`.
fn goes_before(
    idf_pos: bool,
    x: (usize, usize, usize),
    y: (usize, usize, usize),
    docs: Ghost<Seq<Seq<TokenModel>>>,
    t: Ghost<Seq<char>>,
) -> (r: bool)
    requires
        idf_pos == idf_positive(docs@, t@),
        key_ok(docs@, t@, x),
        key_ok(docs@, t@, y),
    ensures
        r == ranks_before(docs@, t@, x.0 as int, y.0 as int),
{
    reveal(ranks_before);
    if idf_pos {
        fraction_greater(x.1, x.2, y.1, y.2) || (!fraction_greater(y.1, y.2, x.1, x.2) && x.0 < y.0)
    } else {
        x.0 < y.0
    }
}

/// The documents that hold `term`, ranked by tf-idf score, best first; ties
/// go to the lower document id. A term that no document holds gives an
/// empty list.
pub fn search_term(index: &PositionalIndex, term: &String) -> (r: Vec<usize>)
    requires
        index.wf(),
    ensures
        is_ranking(index.corpus(), term@, r@),
{
    let ghost docs = index.corpus();
    let ghost t = term@;
    let ghost hs = holders(docs, t);
    proof {
        lemma_postings_ascending(docs, t);
        lemma_holders_occur(docs, t);
        assert(ascending_ids(hs));
    }
    let id = match index.lookup(term) {
        None => {
            proof {
                assert(hs =~= Seq::<usize>::empty());
                assert forall|x: usize| #[trigger] Seq::<usize>::empty().contains(x) <==> hs.contains(x) by {}
            }
            return Vec::new();
        },
        Some(id) => id,
    };
    let pl = &index.postings[id];
    let n = index.doc_count;
    let df = pl.postings.len();
    let idf_pos = df < n && n - df > 1;
    let mut ranked: Vec<(usize, usize, usize)> = Vec::new();
    let mut i: usize = 0;
    proof {
        assert(pl@ == postings_of(docs, t));
        assert(key_docs(ranked@) =~= hs.take(0));
    }
    while i < df
        invariant
            index.wf(),
            docs == index.corpus(),
            pl@ == postings_of(docs, t),
            hs == holders(docs, t),
            df == pl.postings@.len(),
            idf_pos == idf_positive(docs, t),
            i <= df,
            ranked@.len() == i,
            ascending_ids(hs),
            forall|x: usize| #[trigger] hs.contains(x) ==> x < docs.len() && occurs(docs[x as int], t),
            forall|k: int| 0 <= k < ranked@.len() ==> key_ok(docs, t, #[trigger] ranked@[k]),
            forall|x: usize| #[trigger] key_docs(ranked@).contains(x) <==> hs.take(i as int).contains(x),
            forall|a: int, b: int|
                0 <= a < b < ranked@.len() ==> ranks_before(
                    docs,
                    t,
                    #[trigger] ranked@[a].0 as int,
                    #[trigger] ranked@[b].0 as int,
                ),
        decreases df - i,
    {
        let p = &pl.postings[i];
        let d = p.doc_id;
        proof {
            assert(hs[i as int] == d);
            assert(hs.contains(d));
            lemma_posting_of_doc(docs, t, d as int);
            assert(p@ == postings_of(docs, t)[i as int]);
        }
        let key = (d, p.positions.len(), index.term_counts[d]);
        proof {
            assert(key_ok(docs, t, key));
            assert(!key_docs(ranked@).contains(d)) by {
                if key_docs(ranked@).contains(d) {
                    assert(hs.take(i as int).contains(d));
                    let j = choose|j: int| 0 <= j < i && #[trigger] hs.take(i as int)[j] == d;
                    assert(hs[j] < hs[i as int]);
                }
            }
        }
        let mut pos: usize = 0;
        while pos < ranked.len() && !goes_before(idf_pos, key, ranked[pos], Ghost(docs), Ghost(t))
            invariant
                pos <= ranked@.len(),
                key_ok(docs, t, key),
                idf_pos == idf_positive(docs, t),
                !key_docs(ranked@).contains(d),
                key.0 == d,
                forall|k: int| 0 <= k < ranked@.len() ==> key_ok(docs, t, #[trigger] ranked@[k]),
                forall|k: int| 0 <= k < pos ==> ranks_before(docs, t, #[trigger] ranked@[k].0 as int, d as int),
            decreases ranked@.len() - pos,
        {
            proof {
                let y = ranked@[pos as int];
                assert(key_docs(ranked@)[pos as int] == y.0);
                lemma_ranks_order(docs, t, d as int, y.0 as int, y.0 as int);
            }
            pos = pos + 1;
        }
        let ghost old_ranked = ranked@;
        ranked.insert(pos, key);
        proof {
            assert(ranked@ == old_ranked.insert(pos as int, key));
            assert(hs.take(i + 1) =~= hs.take(i as int).push(d));
            assert forall|x: usize| #[trigger] key_docs(ranked@).contains(x) <==> hs.take(i + 1).contains(x) by {
                if key_docs(ranked@).contains(x) {
                    let k = choose|k: int| 0 <= k < ranked@.len() && key_docs(ranked@)[k] == x;
                    if k < pos {
                        assert(key_docs(old_ranked)[k] == x);
                    } else if k > pos {
                        assert(key_docs(old_ranked)[k - 1] == x);
                    }
                    if x != d {
                        assert(key_docs(old_ranked).contains(x));
                        assert(hs.take(i as int).contains(x));
                        let j = choose|j: int| 0 <= j < i && #[trigger] hs.take(i as int)[j] == x;
                        assert(hs.take(i + 1)[j] == x);
                    } else {
                        assert(hs.take(i + 1)[i as int] == x);
                    }
                }
                if hs.take(i + 1).contains(x) {
                    let j = choose|j: int| 0 <= j < i + 1 && #[trigger] hs.take(i + 1)[j] == x;
                    if j < i {
                        assert(hs.take(i as int)[j] == x);
                        assert(key_docs(old_ranked).contains(x));
                        let k = choose|k: int| 0 <= k < old_ranked.len() && key_docs(old_ranked)[k] == x;
                        if k < pos {
                            assert(key_docs(ranked@)[k] == x);
                        } else {
                            assert(key_docs(ranked@)[k + 1] == x);
                        }
                    } else {
                        assert(key_docs(ranked@)[pos as int] == x);
                    }
                }
            }
            assert forall|a: int, b: int| 0 <= a < b < ranked@.len() implies ranks_before(
                docs,
                t,
                #[trigger] ranked@[a].0 as int,
                #[trigger] ranked@[b].0 as int,
            ) by {
                if b < pos {
                    assert(ranked@[a] == old_ranked[a] && ranked@[b] == old_ranked[b]);
                } else if b == pos {
                    assert(ranked@[a] == old_ranked[a]);
                } else if a == pos {
                    assert(ranked@[b] == old_ranked[b - 1]);
                    assert(ranks_before(docs, t, d as int, old_ranked[pos as int].0 as int));
                    if b - 1 > pos {
                        assert(ranks_before(docs, t, old_ranked[pos as int].0 as int, old_ranked[b - 1].0 as int));
                        lemma_ranks_order(docs, t, d as int, old_ranked[pos as int].0 as int, old_ranked[b - 1].0 as int);
                    }
                } else if a < pos {
                    assert(ranked@[a] == old_ranked[a] && ranked@[b] == old_ranked[b - 1]);
                } else {
                    assert(ranked@[a] == old_ranked[a - 1] && ranked@[b] == old_ranked[b - 1]);
                }
            }
            assert forall|k: int| 0 <= k < ranked@.len() implies key_ok(docs, t, #[trigger] ranked@[k]) by {
                if k < pos {
                    assert(ranked@[k] == old_ranked[k]);
                } else if k > pos {
                    assert(ranked@[k] == old_ranked[k - 1]);
                }
            }
        }
        i = i + 1;
    }
    let mut r: Vec<usize> = Vec::new();
    let mut k: usize = 0;
    while k < ranked.len()
        invariant
            k <= ranked@.len(),
            r@ == key_docs(ranked@).take(k as int),
        decreases ranked@.len() - k,
    {
        r.push(ranked[k].0);
        k = k + 1;
        proof {
            assert(r@ =~= key_docs(ranked@).take(k as int));
        }
    }
    proof {
        assert(r@ =~= key_docs(ranked@));
        assert(hs.take(df as int) =~= hs);
        assert forall|a: int, b: int| 0 <= a < b < r@.len() implies ranks_before(
            docs,
            t,
            #[trigger] r@[a] as int,
            #[trigger] r@[b] as int,
        ) by {
            assert(r@[a] == ranked@[a].0 && r@[b] == ranked@[b].0);
        }
    }
    r
}

/// The document ids of a sequence strictly ascend.
spec fn ascending_ids(s: Seq<usize>) -> bool {
    forall|i: int, j: int| 0 <= i < j < s.len() ==> s[i] < s[j]
}

impl PositionalIndex {
    /// Number of documents that hold `term`.
    pub fn doc_freq(&self, term: &String) -> (r: usize)
        requires
            self.wf(),
        ensures
            r == postings_of(self.corpus(), term@).len(),
    {
        match self.lookup(term) {
            Some(id) => self.postings[id].postings.len(),
            None => 0,
        }
    }

    /// The term frequency of `term` in document `doc_id` as a fraction:
    /// its occurrences there and the document's number of terms. An unknown
    /// document gives `(0, 0)`.
    pub fn tf(&self, doc_id: usize, term: &String) -> (r: (usize, usize))
        requires
            self.wf(),
        ensures
            doc_id < self.corpus().len() ==> r.0 == occurrences(self.corpus(), doc_id as int, term@)
                && r.1 == doc_terms(self.corpus(), doc_id as int),
            doc_id >= self.corpus().len() ==> r == (0usize, 0usize),
    {
        if doc_id >= self.term_counts.len() {
            return (0, 0);
        }
        let total = self.term_counts[doc_id];
        let ghost docs = self.corpus();
        proof {
            lemma_posting_of_doc(docs, term@, doc_id as int);
        }
        match self.lookup(term) {
            None => {
                proof {
                    if occurs(docs[doc_id as int], term@) {
                        let i = choose|i: int|
                            0 <= i < postings_of(docs, term@).len() && #[trigger] postings_of(
                                docs,
                                term@,
                            )[i].doc_id == doc_id;
                    }
                }
                (0, total)
            },
            Some(id) => {
                let pl = &self.postings[id];
                let mut i: usize = 0;
                while i < pl.postings.len()
                    invariant
                        self.wf(),
                        docs == self.corpus(),
                        doc_id < docs.len(),
                        total == doc_terms(docs, doc_id as int),
                        pl@ == postings_of(docs, term@),
                        i <= pl.postings@.len(),
                        forall|j: int| 0 <= j < i ==> pl@[j].doc_id != doc_id,
                    decreases pl.postings.len() - i,
                {
                    if pl.postings[i].doc_id == doc_id {
                        proof {
                            lemma_posting_of_doc(docs, term@, doc_id as int);
                            assert(pl@[i as int].doc_id == doc_id);
                        }
                        return (pl.postings[i].positions.len(), total);
                    }
                    i = i + 1;
                }
                proof {
                    if occurs(docs[doc_id as int], term@) {
                        let i = choose|i: int|
                            0 <= i < postings_of(docs, term@).len() && #[trigger] postings_of(
                                docs,
                                term@,
                            )[i].doc_id == doc_id;
                        assert(pl@[i].doc_id != doc_id);
                    }
                }
                (0, total)
            },
        }
    }
}

/// A term held by every document has a zero inverse document frequency:
/// `log2(n / (n + 1))` is negative and the floor makes it zero.
pub proof fn lemma_idf_zero_everywhere(docs: Seq<Seq<TokenModel>>, t: Seq<char>)
    requires
        forall|d: int| 0 <= d < docs.len() ==> occurs(#[trigger] docs[d], t),
    ensures
        postings_of(docs, t).len() == docs.len(),
        !idf_positive(docs, t),
    decreases docs.len(),
{
    if docs.len() > 0 {
        let prev = docs.drop_last();
        assert forall|d: int| 0 <= d < prev.len() implies occurs(#[trigger] prev[d], t) by {
            assert(prev[d] == docs[d]);
        }
        lemma_idf_zero_everywhere(prev, t);
        assert(occurs(docs[docs.len() - 1], t));
    }
}

} // verus!
