//! The vocabulary codec: a bijection between terms and dense ids `1..=n`,
//! with id 0 standing for every unknown term.
use vstd::prelude::*;

verus! {

/// Failure of a vocabulary lookup.
#[derive(Debug, Clone, Copy, PartialEq, Eq, Structural)]
pub enum VocabError {
    /// The id was never assigned to a term (id 0 included).
    UnknownId,
}

/// The largest number of terms a vocabulary holds, so that every id fits
/// in a `u32` and `len + 1` does too.
pub const MAX_TERMS: usize = 4294967294;

/// The terms in order of first registration, without repeats.
pub open spec fn registered(ts: Seq<Seq<char>>) -> Seq<Seq<char>>
    decreases ts.len(),
{
    if ts.len() == 0 {
        Seq::empty()
    } else {
        let r = registered(ts.drop_last());
        if r.contains(ts.last()) {
            r
        } else {
            r.push(ts.last())
        }
    }
}

/// The id of term `t` among terms `ts`: its position plus one, or 0 when
/// absent.
pub open spec fn term_id(ts: Seq<Seq<char>>, t: Seq<char>) -> int {
    if ts.contains(t) {
        (choose|i: int| 0 <= i < ts.len() && ts[i] == t) + 1
    } else {
        0
    }
}

/// The ids of the known terms among `toks`, in order; unknown terms are
/// dropped.
pub open spec fn encode_tokens(ts: Seq<Seq<char>>, toks: Seq<Seq<char>>) -> Seq<u32>
    decreases toks.len(),
{
    if toks.len() == 0 {
        Seq::empty()
    } else {
        let r = encode_tokens(ts, toks.drop_last());
        let id = term_id(ts, toks.last());
        if id == 0 {
            r
        } else {
            r.push(id as u32)
        }
    }
}

/// The view of a list of strings.
pub open spec fn strings_view(v: Seq<String>) -> Seq<Seq<char>> {
    v.map_values(|t: String| t@)
}

/// Terms indexed by id: the term with id `i` sits at position `i - 1`.
///
/// Lookup by term scans the list. A hash or ordered map keyed by `String`
/// would be faster, but neither its lookups nor string ordering carry a
/// specification that a proof about term ids could rest on.
pub struct Vocabulary {
    terms: Vec<String>,
}

impl View for Vocabulary {
    type V = Seq<Seq<char>>;

    closed spec fn view(&self) -> Seq<Seq<char>> {
        self.terms@.map_values(|t: String| t@)
    }
}

impl Vocabulary {
    /// No term is registered twice, and every id fits in a `u32`.
    pub open spec fn wf(&self) -> bool {
        &&& self@.no_duplicates()
        &&& self@.len() <= MAX_TERMS
    }

    /// An empty vocabulary.
    pub fn new() -> (r: Vocabulary)
        ensures
            r.wf(),
            r@ == Seq::<Seq<char>>::empty(),
    {
        let r = Vocabulary { terms: Vec::new() };
        proof {
            assert(r@ =~= Seq::<Seq<char>>::empty());
        }
        r
    }

    /// Number of registered terms; ids run from 1 to this number.
    pub fn len(&self) -> (r: usize)
        ensures
            r == self@.len(),
    {
        self.terms.len()
    }

    /// The id of `term`, or 0 when it was never registered.
    pub fn encode(&self, term: &String) -> (r: u32)
        requires
            self.wf(),
        ensures
            r == term_id(self@, term@),
            r == 0 <==> !self@.contains(term@),
            r > 0 ==> r <= self@.len() && self@[r - 1] == term@,
    {
        let n = self.terms.len();
        let mut i: usize = 0;
        while i < n
            invariant
                self.wf(),
                n == self@.len(),
                i <= n,
                forall|j: int| 0 <= j < i ==> self@[j] != term@,
            decreases n - i,
        {
            if self.terms[i] == *term {
                proof {
                    assert(self@[i as int] == term@);
                    assert(self@.contains(term@));
                    let j = choose|j: int| 0 <= j < self@.len() && self@[j] == term@;
                    assert(j == i);
                }
                return (i + 1) as u32;
            }
            i = i + 1;
        }
        0
    }

    /// Registers `term` if it is new and returns its id; a term already
    /// present keeps its id and the vocabulary is unchanged.
    pub fn register(&mut self, term: String) -> (r: u32)
        requires
            old(self).wf(),
            old(self)@.len() < MAX_TERMS,
        ensures
            final(self).wf(),
            final(self)@ == if old(self)@.contains(term@) {
                old(self)@
            } else {
                old(self)@.push(term@)
            },
            0 < r <= final(self)@.len(),
            final(self)@[r - 1] == term@,
    {
        let id = self.encode(&term);
        if id > 0 {
            return id;
        }
        let ghost t = term@;
        self.terms.push(term);
        proof {
            assert(self@ =~= old(self)@.push(t));
            assert(self@[self@.len() - 1] == t);
            assert(self@.contains(t));
            assert forall|j: int| 0 <= j < self@.len() - 1 implies self@[j] != t by {
                assert(self@[j] == old(self)@[j]);
            }
            assert(self@.no_duplicates());
        }
        self.terms.len() as u32
    }

    /// A vocabulary that registers `terms` in order; ids follow the order
    /// of first appearance.
    pub fn from_terms(terms: Vec<String>) -> (r: Vocabulary)
        requires
            terms@.len() <= MAX_TERMS,
        ensures
            r.wf(),
            r@ == registered(terms@.map_values(|t: String| t@)),
    {
        let mut v = Vocabulary::new();
        let n = terms.len();
        let mut i: usize = 0;
        let ghost all = terms@.map_values(|t: String| t@);
        while i < n
            invariant
                v.wf(),
                n == terms@.len(),
                n <= MAX_TERMS,
                i <= n,
                all == terms@.map_values(|t: String| t@),
                v@ == registered(all.take(i as int)),
                v@.len() <= i,
            decreases n - i,
        {
            proof {
                assert(all.take(i + 1).drop_last() =~= all.take(i as int));
                assert(all.take(i + 1).last() == terms@[i as int]@);
            }
            v.register(terms[i].clone());
            i = i + 1;
        }
        proof {
            assert(all.take(n as int) =~= all);
        }
        v
    }

    /// The term with id `id`; `UnknownId` when no term has that id.
    pub fn decode(&self, id: u32) -> (r: Result<String, VocabError>)
        ensures
            r is Err <==> id == 0 || id > self@.len(),
            r matches Ok(s) ==> s@ == self@[id - 1],
            r matches Err(e) ==> e == VocabError::UnknownId,
    {
        if id == 0 || id as usize > self.terms.len() {
            Err(VocabError::UnknownId)
        } else {
            Ok(self.terms[(id - 1) as usize].clone())
        }
    }

    /// The ids of the known terms of `tokens`, in order; unknown terms are
    /// dropped.
    pub fn encode_all(&self, tokens: &Vec<String>) -> (r: Vec<u32>)
        requires
            self.wf(),
        ensures
            r@ == encode_tokens(self@, strings_view(tokens@)),
            forall|j: int| 0 <= j < r@.len() ==> 0 < #[trigger] r@[j] <= self@.len(),
            r@.len() <= tokens@.len(),
    {
        let ghost tv = strings_view(tokens@);
        let mut r: Vec<u32> = Vec::new();
        let n = tokens.len();
        let mut i: usize = 0;
        while i < n
            invariant
                self.wf(),
                n == tokens@.len(),
                tv == strings_view(tokens@),
                i <= n,
                r@ == encode_tokens(self@, tv.take(i as int)),
                forall|j: int| 0 <= j < r@.len() ==> 0 < #[trigger] r@[j] <= self@.len(),
                r@.len() <= i,
            decreases n - i,
        {
            proof {
                assert(tv.take(i + 1).drop_last() =~= tv.take(i as int));
                assert(tv.take(i + 1).last() == tokens@[i as int]@);
            }
            let id = self.encode(&tokens[i]);
            if id > 0 {
                r.push(id);
            }
            i = i + 1;
        }
        proof {
            assert(tv.take(n as int) =~= tv);
        }
        r
    }
}

} // verus!
