use vstd::prelude::*;

verus! {

/// The id of `t` in a dictionary whose term list is `terms`: the position at
/// which `t` stands, if it stands anywhere.
pub open spec fn id_of(terms: Seq<Seq<char>>, t: Seq<char>) -> Option<usize> {
    if exists|i: int| 0 <= i < terms.len() && terms[i] == t {
        Some((choose|i: int| 0 <= i < terms.len() && terms[i] == t) as usize)
    } else {
        None
    }
}

/// What the dictionary's term list becomes once `t` has been seen.
pub open spec fn dict_add(terms: Seq<Seq<char>>, t: Seq<char>) -> Seq<Seq<char>> {
    if terms.contains(t) {
        terms
    } else {
        terms.push(t)
    }
}

/// No term is listed twice.
pub open spec fn distinct_terms(terms: Seq<Seq<char>>) -> bool {
    forall|i: int, j: int| 0 <= i < terms.len() && 0 <= j < terms.len() && i != j ==> terms[i] != terms[j]
}

/// Assigns a sequential id to each distinct term on first sight.
///
/// The id of a term is its position in the term list, so the two directions
/// (id to term, term to id) are one list read two ways.
#[derive(Debug)]
pub struct TermDict {
    terms: Vec<String>,
}

impl View for TermDict {
    type V = Seq<Seq<char>>;

    closed spec fn view(&self) -> Seq<Seq<char>> {
        self.terms@.map_values(|s: String| s@)
    }
}

impl TermDict {
    pub open spec fn wf(&self) -> bool {
        &&& distinct_terms(self@)
        &&& self@.len() <= usize::MAX
    }

    pub fn new() -> (r: TermDict)
        ensures
            r.wf(),
            r@ == Seq::<Seq<char>>::empty(),
    {
        TermDict { terms: Vec::new() }
    }

    /// Number of distinct terms seen so far.
    pub fn len(&self) -> (r: usize)
        ensures
            r == self@.len(),
    {
        self.terms.len()
    }

    /// Returns the id of `term`, allocating the next one if `term` is new.
    pub fn add_term(&mut self, term: &str) -> (r: usize)
        requires
            old(self).wf(),
        ensures
            final(self).wf(),
            final(self)@ == dict_add(old(self)@, term@),
            r < final(self)@.len(),
            final(self)@[r as int] == term@,
            old(self)@.contains(term@) ==> id_of(old(self)@, term@) == Some(r),
            !old(self)@.contains(term@) ==> r == old(self)@.len(),
    {
        match self.index_str(term) {
            Some(i) => i,
            None => {
                self.terms.push(term.to_owned());
                let r = self.terms.len() - 1;
                proof {
                    assert(self@ =~= old(self)@.push(term@));
                }
                r
            },
        }
    }

    /// The term that has id `idx`.
    pub fn term(&self, idx: usize) -> (r: Option<&String>)
        ensures
            idx < self@.len() ==> r.is_some() && r.unwrap()@ == self@[idx as int],
            idx >= self@.len() ==> r.is_none(),
    {
        if idx < self.terms.len() {
            Some(&self.terms[idx])
        } else {
            None
        }
    }

    /// The id of `term`, if it has been seen.
    pub fn index(&self, term: &String) -> (r: Option<usize>)
        requires
            self.wf(),
        ensures
            r == id_of(self@, term@),
    {
        self.index_str(term.as_str())
    }

    fn index_str(&self, term: &str) -> (r: Option<usize>)
        requires
            self.wf(),
        ensures
            r == id_of(self@, term@),
            r.is_some() <==> self@.contains(term@),
            r.is_some() ==> r.unwrap() < self@.len() && self@[r.unwrap() as int] == term@,
    {
        let key = term.to_owned();
        let mut i: usize = 0;
        while i < self.terms.len()
            invariant
                key@ == term@,
                i <= self.terms.len(),
                self.wf(),
                forall|j: int| 0 <= j < i ==> self@[j] != term@,
            decreases self.terms.len() - i,
        {
            if self.terms[i] == key {
                proof {
                    assert(self@[i as int] == term@);
                    lemma_id_of_at(self@, i as int);
                }
                return Some(i);
            }
            i = i + 1;
        }
        proof {
            assert(!self@.contains(term@));
        }
        None
    }
}

/// In a list without repeats, the id of the term at `i` is `i`.
pub proof fn lemma_id_of_at(terms: Seq<Seq<char>>, i: int)
    requires
        distinct_terms(terms),
        0 <= i < terms.len(),
        terms.len() <= usize::MAX,
    ensures
        id_of(terms, terms[i]) == Some(i as usize),
{
    assert(exists|k: int| 0 <= k < terms.len() && terms[k] == terms[i]);
}

/// The dictionary is a bijection: looking up the term of an id gives the id
/// back, and looking up the id of a known term gives the term back.
pub proof fn lemma_dict_round_trip(d: TermDict)
    requires
        d.wf(),
    ensures
        forall|i: int| 0 <= i < d@.len() ==> #[trigger] id_of(d@, d@[i]) == Some(i as usize),
        forall|t: Seq<char>|
            #[trigger] d@.contains(t) ==> id_of(d@, t).is_some() && d@[id_of(d@, t).unwrap() as int] == t,
{
    assert forall|i: int| 0 <= i < d@.len() implies #[trigger] id_of(d@, d@[i]) == Some(i as usize) by {
        lemma_id_of_at(d@, i);
    }
    assert forall|t: Seq<char>| #[trigger] d@.contains(t) implies id_of(d@, t).is_some() && d@[id_of(
        d@,
        t,
    ).unwrap() as int] == t by {
        let i = choose|i: int| 0 <= i < d@.len() && d@[i] == t;
        lemma_id_of_at(d@, i);
    }
}

} // verus!
