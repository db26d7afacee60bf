use vstd::prelude::*;

use crate::index::PositionalIndex;
use crate::model::{
    lemma_posting_of_doc, lemma_postings_ascending, occurs, postings_of, PostingModel,
};
use crate::token::TokenModel;

verus! {

/// Document `d` holds every term of a non-empty query `q`.
pub open spec fn matches_all(docs: Seq<Seq<TokenModel>>, q: Seq<Seq<char>>, d: int) -> bool {
    &&& q.len() > 0
    &&& forall|k: int| 0 <= k < q.len() ==> occurs(#[trigger] docs[d], q[k])
}

/// The documents with id below `n` that hold every term of `q`, ascending.
pub open spec fn matches_below(docs: Seq<Seq<TokenModel>>, q: Seq<Seq<char>>, n: nat) -> Seq<usize>
    decreases n,
{
    if n == 0 {
        Seq::empty()
    } else {
        let prev = matches_below(docs, q, (n - 1) as nat);
        if matches_all(docs, q, n - 1) {
            prev.push((n - 1) as usize)
        } else {
            prev
        }
    }
}

/// The documents of the corpus that hold every term of `q`, ascending.
pub open spec fn matching_docs(docs: Seq<Seq<TokenModel>>, q: Seq<Seq<char>>) -> Seq<usize> {
    matches_below(docs, q, docs.len())
}

/// The terms of a conjunctive query.
pub struct MultiTermQuery {
    pub terms: Vec<String>,
}

impl View for MultiTermQuery {
    type V = Seq<Seq<char>>;

    open spec fn view(&self) -> Seq<Seq<char>> {
        self.terms@.map_values(|s: String| s@)
    }
}

impl MultiTermQuery {
    pub fn new(terms: Vec<String>) -> (r: MultiTermQuery)
        ensures
            r@ == terms@.map_values(|s: String| s@),
    {
        MultiTermQuery { terms }
    }

    /// The documents of `index` that hold every term, one at a time.
    pub fn iter<'a>(&self, index: &'a PositionalIndex) -> (r: DocIterator<'a>)
        requires
            index.wf(),
        ensures
            r.wf(),
            r.query() == self@,
            r.docs() == index.corpus(),
            r.candidate() is None ==> forall|d: int|
                0 <= d < index.corpus().len() ==> !matches_all(index.corpus(), self@, d),
            r.candidate() is Some ==> forall|d: int|
                0 <= d < r.candidate()->0 ==> !matches_all(index.corpus(), self@, d),
    {
        DocIterator::new(self, index)
    }
}

/// Walks the documents that hold every term of a query, in ascending order.
///
/// It keeps one cursor per query term into that term's posting list and a
/// candidate: no document below the candidate is left to report.
pub struct DocIterator<'a> {
    index: &'a PositionalIndex,
    lists: Vec<usize>,
    cursors: Vec<usize>,
    next_doc: Option<usize>,
    terms: Ghost<Seq<Seq<char>>>,
}

impl<'a> DocIterator<'a> {
    /// The query's terms.
    pub closed spec fn query(&self) -> Seq<Seq<char>> {
        self.terms@
    }

    /// The corpus of the index walked.
    pub closed spec fn docs(&self) -> Seq<Seq<TokenModel>> {
        self.index.corpus()
    }

    /// The least document id that may still be reported; none when the walk
    /// is over.
    pub closed spec fn candidate(&self) -> Option<usize> {
        self.next_doc
    }

    spec fn list(&self, k: int) -> Seq<PostingModel> {
        self.index.postings@[self.lists@[k] as int]@
    }

    pub closed spec fn wf(&self) -> bool {
        &&& self.index.wf()
        &&& self.next_doc is Some ==> {
            let c = self.next_doc->0;
            &&& c <= self.index.corpus().len()
            &&& self.terms@.len() > 0
            &&& self.lists@.len() == self.terms@.len()
            &&& self.cursors@.len() == self.terms@.len()
            &&& forall|k: int|
                0 <= k < self.lists@.len() ==> {
                    &&& #[trigger] self.lists@[k] < self.index.postings@.len()
                    &&& self.list(k) == postings_of(self.index.corpus(), self.terms@[k])
                    &&& self.cursors@[k] <= self.list(k).len()
                    &&& forall|j: int| 0 <= j < self.cursors@[k] ==> self.list(k)[j].doc_id < c
                }
        }
    }

    pub fn new(query: &MultiTermQuery, index: &'a PositionalIndex) -> (r: DocIterator<'a>)
        requires
            index.wf(),
        ensures
            r.wf(),
            r.query() == query@,
            r.docs() == index.corpus(),
            r.candidate() is None ==> forall|d: int|
                0 <= d < index.corpus().len() ==> !matches_all(index.corpus(), query@, d),
            r.candidate() is Some ==> forall|d: int|
                0 <= d < r.candidate()->0 ==> !matches_all(index.corpus(), query@, d),
    {
        let ghost q = query@;
        let ghost docs = index.corpus();
        let mut lists: Vec<usize> = Vec::new();
        let mut cursors: Vec<usize> = Vec::new();
        let mut have_none = false;
        let mut k: usize = 0;
        while k < query.terms.len()
            invariant
                index.wf(),
                q == query@,
                docs == index.corpus(),
                k <= query.terms.len(),
                !have_none ==> lists@.len() == k && cursors@.len() == k,
                !have_none ==> forall|j: int|
                    0 <= j < k ==> #[trigger] lists@[j] < index.postings@.len()
                        && index.postings@[lists@[j] as int]@ == postings_of(docs, q[j])
                        && postings_of(docs, q[j]).len() > 0 && cursors@[j] == 0,
                have_none ==> exists|j: int| 0 <= j < k && postings_of(docs, #[trigger] q[j]).len() == 0,
            decreases query.terms.len() - k,
        {
            match index.lookup(&query.terms[k]) {
                None => {
                    proof {
                        assert(q[k as int] == query.terms@[k as int]@);
                        assert(postings_of(docs, q[k as int]).len() == 0);
                    }
                    have_none = true;
                },
                Some(id) => {
                    proof {
                        assert(q[k as int] == query.terms@[k as int]@);
                    }
                    lists.push(id);
                    cursors.push(0);
                },
            }
            k = k + 1;
        }
        let mut next_doc: Option<usize> = None;
        if !have_none && lists.len() > 0 {
            let first = &index.postings[lists[0]];
            proof {
                assert(lists@[0] < index.postings@.len());
                assert(first@.len() > 0);
                lemma_postings_ascending(docs, q[0]);
                assert(first@[0].doc_id < docs.len());
            }
            next_doc = Some(first.postings[0].doc_id);
            proof {
                let c = first.postings@[0].doc_id;
                lemma_postings_ascending(docs, q[0]);
                assert forall|d: int| 0 <= d < c implies !matches_all(docs, q, d) by {
                    if matches_all(docs, q, d) {
                        assert(occurs(docs[d], q[0]));
                        lemma_posting_of_doc(docs, q[0], d);
                        let i = choose|i: int|
                            0 <= i < postings_of(docs, q[0]).len() && #[trigger] postings_of(
                                docs,
                                q[0],
                            )[i].doc_id == d;
                        if i > 0 {
                            assert(postings_of(docs, q[0])[0].doc_id < postings_of(docs, q[0])[i].doc_id);
                        }
                    }
                }
                assert(first@[0].doc_id < docs.len());
            }
        } else {
            proof {
                assert forall|d: int| 0 <= d < docs.len() implies !matches_all(docs, q, d) by {
                    if have_none {
                        let j = choose|j: int| 0 <= j < k && postings_of(docs, #[trigger] q[j]).len() == 0;
                        if matches_all(docs, q, d) {
                            assert(occurs(docs[d], q[j]));
                            lemma_posting_of_doc(docs, q[j], d);
                        }
                    }
                }
            }
        }
        DocIterator { index, lists, cursors, next_doc, terms: Ghost(q) }
    }
    /// The next document that holds every term of the query, if one is left.
    ///
    /// Each cursor first skips the postings below the candidate. If a cursor
    /// runs out, no document is left; if a cursor stops on a larger
    /// document, that document becomes the candidate and the skip starts
    /// over; if all stop on the candidate, it is reported.
    pub fn next(&mut self) -> (r: Option<usize>)
        requires
            old(self).wf(),
        ensures
            final(self).wf(),
            final(self).query() == old(self).query(),
            final(self).docs() == old(self).docs(),
            old(self).candidate() is None ==> r is None && final(self).candidate() is None,
            old(self).candidate() is Some ==> ({
                let c = old(self).candidate()->0 as int;
                let docs = old(self).docs();
                let q = old(self).query();
                match r {
                    Some(m) => {
                        &&& c <= m < docs.len()
                        &&& matches_all(docs, q, m as int)
                        &&& forall|d: int| c <= d < m ==> !matches_all(docs, q, d)
                        &&& final(self).candidate() == Some((m + 1) as usize)
                    },
                    None => {
                        &&& forall|d: int| c <= d < docs.len() ==> !matches_all(docs, q, d)
                        &&& final(self).candidate() is None
                    },
                }
            }),
    {
        let index = self.index;
        let ghost docs = index.corpus();
        let ghost q = self.terms@;
        let ghost c0: int = match self.next_doc {
            Some(c) => c as int,
            None => 0,
        };
        let n_lists = self.lists.len();
        loop
            invariant
                self.wf(),
                self.index == index,
                index == old(self).index,
                docs == index.corpus(),
                q == self.terms@,
                self.terms == old(self).terms,
                old(self).next_doc is None ==> self.next_doc is None,
                old(self).next_doc is Some ==> c0 == old(self).next_doc->0,
                old(self).next_doc is Some ==> self.next_doc is Some,
                self.next_doc is Some ==> c0 <= self.next_doc->0 && n_lists == self.lists@.len(),
                self.next_doc is Some ==> forall|d: int|
                    c0 <= d < self.next_doc->0 ==> !matches_all(docs, q, d),
            decreases docs.len() + 1 - match self.next_doc {
                Some(c) => c as int,
                None => 0,
            },
        {
            let target = match self.next_doc {
                None => {
                    return None;
                },
                Some(t) => t,
            };
            let mut k: usize = 0;
            while k < n_lists
                invariant
                    self.wf(),
                    self.index == index,
                    self.terms == old(self).terms,
                    self.next_doc == Some(target),
                    n_lists == self.lists@.len(),
                    n_lists == self.cursors@.len(),
                    k <= n_lists,
                    forall|i: int|
                        0 <= i < k ==> (#[trigger] self.cursors@[i] == self.list(i).len()
                            || self.list(i)[self.cursors@[i] as int].doc_id >= target),
                decreases n_lists - k,
            {
                let list = &index.postings[self.lists[k]];
                let mut cur = self.cursors[k];
                proof {
                    assert(self.lists@[k as int] < index.postings@.len());
                }
                while cur < list.postings.len() && list.postings[cur].doc_id < target
                    invariant
                        k < self.cursors@.len(),
                        self.cursors@[k as int] <= cur <= list.postings@.len(),
                        list@ == self.list(k as int),
                        forall|j: int| 0 <= j < cur ==> list@[j].doc_id < target,
                    decreases list.postings.len() - cur,
                {
                    cur = cur + 1;
                }
                let ghost before = self.cursors@;
                self.cursors[k] = cur;
                proof {
                    assert forall|i: int| 0 <= i < self.lists@.len() implies {
                        &&& #[trigger] self.lists@[i] < self.index.postings@.len()
                        &&& self.list(i) == postings_of(self.index.corpus(), self.terms@[i])
                        &&& self.cursors@[i] <= self.list(i).len()
                        &&& forall|j: int| 0 <= j < self.cursors@[i] ==> self.list(i)[j].doc_id < target
                    } by {
                        if i != k {
                            assert(self.cursors@[i] == before[i]);
                        }
                    }
                }
                k = k + 1;
            }
            let mut j: usize = 0;
            let mut jump: Option<usize> = None;
            while j < n_lists && jump.is_none()
                invariant
                    self.wf(),
                    self.index == index,
                    self.terms == old(self).terms,
                    self.next_doc == Some(target),
                    n_lists == self.lists@.len(),
                    n_lists == self.cursors@.len(),
                    n_lists == q.len(),
                    q == self.terms@,
                    index == old(self).index,
                    docs == index.corpus(),
                    j <= n_lists,
                    forall|i: int|
                        0 <= i < n_lists ==> (#[trigger] self.cursors@[i] == self.list(i).len()
                            || self.list(i)[self.cursors@[i] as int].doc_id >= target),
                    forall|i: int|
                        0 <= i < j ==> #[trigger] self.cursors@[i] < self.list(i).len()
                            && self.list(i)[self.cursors@[i] as int].doc_id == target,
                    jump is Some ==> j < n_lists && self.cursors@[j as int] < self.list(j as int).len()
                        && self.list(j as int)[self.cursors@[j as int] as int].doc_id == jump->0
                        && jump->0 != target,
                    old(self).next_doc is Some ==> c0 == old(self).next_doc->0,
                    c0 <= target,
                    forall|d: int| c0 <= d < target ==> !matches_all(docs, q, d),
                decreases n_lists - j + if jump is None {
                    1int
                } else {
                    0int
                },
            {
                let list = &index.postings[self.lists[j]];
                let cur = self.cursors[j];
                proof {
                    assert(self.lists@[j as int] < index.postings@.len());
                }
                if cur == list.postings.len() {
                    self.next_doc = None;
                    proof {
                        let lj = self.list(j as int);
                        assert(lj == postings_of(docs, q[j as int]));
                        assert(forall|i: int| 0 <= i < self.cursors@[j as int] ==> lj[i].doc_id < target);
                        assert forall|d: int| c0 <= d < docs.len() implies !matches_all(docs, q, d) by {
                            if d >= target && matches_all(docs, q, d) {
                                assert(occurs(docs[d], q[j as int]));
                                lemma_posting_of_doc(docs, q[j as int], d);
                                let i = choose|i: int|
                                    0 <= i < postings_of(docs, q[j as int]).len() && #[trigger] postings_of(
                                        docs,
                                        q[j as int],
                                    )[i].doc_id == d;
                                assert(self.list(j as int)[i].doc_id < target);
                            }
                        }
                    }
                    return None;
                }
                let h = list.postings[cur].doc_id;
                if h != target {
                    jump = Some(h);
                } else {
                    j = j + 1;
                }
            }
            match jump {
                Some(h) => {
                    proof {
                        let lj = self.list(j as int);
                        let cj = self.cursors@[j as int] as int;
                        lemma_postings_ascending(docs, q[j as int]);
                        assert(h < docs.len());
                        assert forall|d: int| c0 <= d < h implies !matches_all(docs, q, d) by {
                            if d >= target && matches_all(docs, q, d) {
                                assert(occurs(docs[d], q[j as int]));
                                lemma_posting_of_doc(docs, q[j as int], d);
                                let i = choose|i: int|
                                    0 <= i < postings_of(docs, q[j as int]).len() && #[trigger] postings_of(
                                        docs,
                                        q[j as int],
                                    )[i].doc_id == d;
                                if i < cj {
                                    assert(lj[i].doc_id < target);
                                } else if i > cj {
                                    assert(lj[cj].doc_id < lj[i].doc_id);
                                }
                            }
                        }
                    }
                    self.next_doc = Some(h);
                },
                None => {
                    proof {
                        lemma_postings_ascending(docs, q[0]);
                        assert(self.cursors@[0] < self.list(0).len());
                        assert(target < docs.len());
                        assert forall|k: int| 0 <= k < q.len() implies occurs(#[trigger] docs[target as int], q[k]) by {
                            assert(self.cursors@[k] < self.list(k).len());
                            lemma_posting_of_doc(docs, q[k], target as int);
                            assert(postings_of(docs, q[k])[self.cursors@[k] as int].doc_id == target);
                        }
                    }
                    self.next_doc = Some(target + 1);
                    return Some(target);
                },
            }
        }
    }
}

/// Documents in `[a, b)` that match nothing add nothing to the list.
proof fn lemma_matches_gap(docs: Seq<Seq<TokenModel>>, q: Seq<Seq<char>>, a: nat, b: nat)
    requires
        a <= b,
        forall|d: int| a <= d < b ==> !matches_all(docs, q, d),
    ensures
        matches_below(docs, q, b) == matches_below(docs, q, a),
    decreases b - a,
{
    if a < b {
        lemma_matches_gap(docs, q, a, (b - 1) as nat);
    }
}

/// Every document that holds all the query's terms, in ascending order.
pub fn search_multi_term(index: &PositionalIndex, query: MultiTermQuery) -> (r: Vec<usize>)
    requires
        index.wf(),
    ensures
        r@ == matching_docs(index.corpus(), query@),
{
    let ghost docs = index.corpus();
    let ghost q = query@;
    let mut iter = query.iter(index);
    let mut r: Vec<usize> = Vec::new();
    proof {
        match iter.candidate() {
            Some(c) => {
                lemma_matches_gap(docs, q, 0, c as nat);
            },
            None => {
                lemma_matches_gap(docs, q, 0, docs.len());
            },
        }
    }
    loop
        invariant
            q == query@,
            docs == index.corpus(),
            iter.wf(),
            iter.query() == q,
            iter.docs() == docs,
            iter.candidate() is Some ==> r@ == matches_below(docs, q, iter.candidate()->0 as nat)
                && iter.candidate()->0 <= docs.len(),
            iter.candidate() is None ==> r@ == matching_docs(docs, q),
        decreases docs.len() + 1 - match iter.candidate() {
            Some(c) => c as int,
            None => docs.len() + 1int,
        },
    {
        let ghost before = iter.candidate();
        match iter.next() {
            Some(m) => {
                proof {
                    lemma_matches_gap(docs, q, before->0 as nat, m as nat);
                    assert(matches_below(docs, q, (m + 1) as nat) == matches_below(docs, q, m as nat).push(m));
                }
                r.push(m);
            },
            None => {
                proof {
                    if before is Some {
                        lemma_matches_gap(docs, q, before->0 as nat, docs.len());
                    }
                }
                return r;
            },
        }
    }
}

/// A query with a term that no document holds matches no document.
pub proof fn lemma_absent_term_matches_nothing(docs: Seq<Seq<TokenModel>>, q: Seq<Seq<char>>, k: int)
    requires
        0 <= k < q.len(),
        forall|d: int| 0 <= d < docs.len() ==> !occurs(#[trigger] docs[d], q[k]),
    ensures
        matching_docs(docs, q) == Seq::<usize>::empty(),
{
    lemma_matches_gap(docs, q, 0, docs.len());
}

/// Two queries made of the same terms, however often each is repeated,
/// match the same documents.
pub proof fn lemma_same_terms_same_matches(docs: Seq<Seq<TokenModel>>, q1: Seq<Seq<char>>, q2: Seq<Seq<char>>)
    requires
        q1.to_set() == q2.to_set(),
    ensures
        matching_docs(docs, q1) == matching_docs(docs, q2),
{
    assert forall|d: int| 0 <= d < docs.len() implies matches_all(docs, q1, d) == matches_all(docs, q2, d) by {
        if matches_all(docs, q1, d) {
            lemma_same_terms_match(docs, q1, q2, d);
        }
        if matches_all(docs, q2, d) {
            lemma_same_terms_match(docs, q2, q1, d);
        }
    }
    lemma_matches_equal(docs, q1, q2, docs.len());
}

proof fn lemma_same_terms_match(docs: Seq<Seq<TokenModel>>, q1: Seq<Seq<char>>, q2: Seq<Seq<char>>, d: int)
    requires
        q1.to_set() == q2.to_set(),
        matches_all(docs, q1, d),
    ensures
        matches_all(docs, q2, d),
{
    assert(q1.to_set().contains(q1[0]));
    assert(q2.to_set().contains(q1[0]));
    assert(q2.len() > 0);
    assert forall|k: int| 0 <= k < q2.len() implies occurs(#[trigger] docs[d], q2[k]) by {
        assert(q2.to_set().contains(q2[k]));
        assert(q1.to_set().contains(q2[k]));
        let i = choose|i: int| 0 <= i < q1.len() && q1[i] == q2[k];
        assert(occurs(docs[d], q1[i]));
    }
}

proof fn lemma_matches_equal(docs: Seq<Seq<TokenModel>>, q1: Seq<Seq<char>>, q2: Seq<Seq<char>>, n: nat)
    requires
        n <= docs.len(),
        forall|d: int| 0 <= d < docs.len() ==> matches_all(docs, q1, d) == matches_all(docs, q2, d),
    ensures
        matches_below(docs, q1, n) == matches_below(docs, q2, n),
    decreases n,
{
    if n > 0 {
        lemma_matches_equal(docs, q1, q2, (n - 1) as nat);
    }
}

/// The matches below `n` are documents below `n`.
pub proof fn lemma_matches_in_range(docs: Seq<Seq<TokenModel>>, q: Seq<Seq<char>>, n: nat, j: int)
    requires
        0 <= j < matches_below(docs, q, n).len(),
    ensures
        matches_below(docs, q, n)[j] < n,
    decreases n,
{
    if n > 0 {
        let prev = matches_below(docs, q, (n - 1) as nat);
        if j < prev.len() {
            lemma_matches_in_range(docs, q, (n - 1) as nat, j);
        }
    }
}

} // verus!
