//! Answering name, provides and description queries against an [`Index`].

use vstd::prelude::*;
use crate::index::{lemma_word_lists, Index, PackageRecord};
use crate::util::Apply;

verus! {

/// How the terms of a query are matched.
pub enum Mode {
    /// Exact package names.
    Name,
    /// Names that packages provide; only the first term counts.
    Provides,
    /// Words of package names and descriptions, all of which must match.
    Description,
}

/// The elements of `s`, as a set.
pub open spec fn elems(s: Seq<usize>) -> Set<usize> {
    Set::new(|x: usize| s.contains(x))
}

/// The elements common to every list of `sets`; none when there are no lists.
pub open spec fn common(sets: Seq<Seq<usize>>) -> Set<usize> {
    Set::new(|x: usize| sets.len() > 0 && forall|i: int| 0 <= i < sets.len() ==> #[trigger] sets[i].contains(x))
}

fn contains(v: &Vec<usize>, x: usize) -> (r: bool)
    ensures
        r == v@.contains(x),
{
    let mut k: usize = 0;
    while k < v.len()
        invariant
            k <= v@.len(),
            forall|m: int| 0 <= m < k ==> v@[m] != x,
        decreases v@.len() - k,
    {
        if v[k] == x {
            return true;
        }
        k += 1;
    }
    false
}

/// The elements common to all `sets`, each once, in the order of the
/// smallest of them. The scan is driven by the smallest set, so that the
/// fewest elements are looked up in the others.
pub fn intersections(sets: &Vec<&Vec<usize>>) -> (r: Vec<usize>)
    ensures
        elems(r@) == common(sets@.map_values(|v: &Vec<usize>| v@)),
        (forall|i: int| 0 <= i < sets@.len() ==> (#[trigger] sets@[i])@.no_duplicates())
            ==> r@.no_duplicates(),
{
    let ghost ss = sets@.map_values(|v: &Vec<usize>| v@);
    let mut res: Vec<usize> = Vec::new();
    if sets.len() == 0 {
        assert(elems(res@) =~= common(ss));
        return res;
    }
    let mut small: usize = 0;
    let mut k: usize = 1;
    while k < sets.len()
        invariant
            1 <= k <= sets@.len(),
            small < sets@.len(),
        decreases sets@.len() - k,
    {
        if sets[k].len() < sets[small].len() {
            small = k;
        }
        k += 1;
    }
    let base: &Vec<usize> = sets[small];
    let mut m: usize = 0;
    while m < base.len()
        invariant
            ss == sets@.map_values(|v: &Vec<usize>| v@),
            small < sets@.len(),
            base@ == ss[small as int],
            m <= base@.len(),
            forall|x: usize| #[trigger] res@.contains(x) <==> (base@.take(m as int).contains(x) && common(ss).contains(x)),
            base@.no_duplicates() ==> res@.no_duplicates(),
        decreases base@.len() - m,
    {
        let x = base[m];
        let mut all = true;
        let mut j: usize = 0;
        while j < sets.len()
            invariant
                ss == sets@.map_values(|v: &Vec<usize>| v@),
                j <= sets@.len(),
                all == (forall|i: int| 0 <= i < j ==> #[trigger] ss[i].contains(x)),
            decreases sets@.len() - j,
        {
            assert(ss[j as int] == sets@[j as int]@);
            if !contains(sets[j], x) {
                all = false;
            }
            j += 1;
        }
        let ghost prev = res@;
        proof {
            assert(base@.take(m + 1) =~= base@.take(m as int).push(x));
            assert(ss[small as int].contains(x));
            if all {
                assert(common(ss).contains(x));
            } else {
                assert(!common(ss).contains(x));
            }
        }
        if all {
            res.push(x);
            proof {
                assert(res@ == prev.push(x));
                assert forall|y: usize| #[trigger] res@.contains(y) <==> (prev.contains(y) || y == x) by {
                    if res@.contains(y) && y != x {
                        let q = choose|q: int| 0 <= q < res@.len() && res@[q] == y;
                        assert(prev[q] == y);
                    }
                    if y == x {
                        assert(res@[prev.len() as int] == y);
                    }
                    if prev.contains(y) {
                        let q = choose|q: int| 0 <= q < prev.len() && prev[q] == y;
                        assert(res@[q] == y);
                    }
                }
                if base@.no_duplicates() {
                    assert(!base@.take(m as int).contains(x)) by {
                        if base@.take(m as int).contains(x) {
                            let q = choose|q: int| 0 <= q < base@.take(m as int).len() && base@.take(m as int)[q] == x;
                            assert(base@[q] == base@[m as int]);
                        }
                    }
                    assert(!prev.contains(x));
                }
            }
        }
        proof {
            let t1 = base@.take(m + 1);
            let t0 = base@.take(m as int);
            assert forall|y: usize| #[trigger] res@.contains(y) <==> (t1.contains(y) && common(ss).contains(y)) by {
                if t1.contains(y) && y != x {
                    let q = choose|q: int| 0 <= q < t1.len() && t1[q] == y;
                    assert(t0[q] == y);
                }
                if t0.contains(y) {
                    let q = choose|q: int| 0 <= q < t0.len() && t0[q] == y;
                    assert(t1[q] == y);
                }
                if y == x {
                    assert(t1[m as int] == y);
                }
            }
        }
        m += 1;
    }
    assert(base@.take(base@.len() as int) =~= base@);
    assert(elems(res@) =~= common(ss));
    res
}

/// Exact name lookup: for each term in order, the record of that name, if any.
pub open spec fn name_hits(names: Map<Seq<char>, usize>, ts: Seq<String>) -> Seq<usize>
    decreases ts.len(),
{
    if ts.len() == 0 {
        Seq::empty()
    } else {
        name_hits(names, ts.drop_last()) + if names.contains_key(ts.last()@) {
            seq![names[ts.last()@]]
        } else {
            Seq::empty()
        }
    }
}

/// Provides lookup: the records that provide the first term.
pub open spec fn provides_hits(provs: Map<Seq<char>, Seq<usize>>, ts: Seq<String>) -> Seq<usize> {
    if ts.len() > 0 && provs.contains_key(ts[0]@) {
        provs[ts[0]@]
    } else {
        Seq::empty()
    }
}

/// The records listed under each term; a term that is no word lists none.
pub open spec fn word_lists(words: Map<Seq<char>, Seq<usize>>, ts: Seq<String>) -> Seq<Seq<usize>> {
    ts.map_values(|t: String| if words.contains_key(t@) { words[t@] } else { Seq::empty() })
}

/// The records indexed under every term.
pub open spec fn word_matches(words: Map<Seq<char>, Seq<usize>>, ts: Seq<String>) -> Set<usize> {
    common(word_lists(words, ts))
}

/// What a description query returns, as a set: the records indexed under
/// every term or, when there are none, those named by some term.
pub open spec fn description_hits(
    names: Map<Seq<char>, usize>,
    words: Map<Seq<char>, Seq<usize>>,
    ts: Seq<String>,
) -> Set<usize> {
    if word_matches(words, ts) != Set::<usize>::empty() {
        word_matches(words, ts)
    } else {
        elems(name_hits(names, ts))
    }
}

impl Index {
    /// Exact name lookup; terms that name no package are skipped.
    pub fn by_names(&self, terms: &Vec<String>) -> (r: Vec<usize>)
        requires
            self.wf(),
        ensures
            r@ == name_hits(self.names(), terms@),
    {
        let mut r: Vec<usize> = Vec::new();
        let mut j: usize = 0;
        while j < terms.len()
            invariant
                self.wf(),
                j <= terms@.len(),
                r@ == name_hits(self.names(), terms@.take(j as int)),
            decreases terms@.len() - j,
        {
            proof {
                assert(terms@.take(j + 1).drop_last() =~= terms@.take(j as int));
            }
            match self.lookup_name(&terms[j]) {
                Some(i) => {
                    r.push(i);
                },
                None => {},
            }
            proof {
                let t = terms@.take(j + 1);
                assert(t.last() == terms@[j as int]);
                if self.names().contains_key(t.last()@) {
                    assert(r@ =~= name_hits(self.names(), t.drop_last()) + seq![self.names()[t.last()@]]);
                } else {
                    assert(r@ =~= name_hits(self.names(), t.drop_last()) + Seq::<usize>::empty());
                }
            }
            j += 1;
        }
        assert(terms@.take(terms@.len() as int) =~= terms@);
        r
    }

    /// The records that provide the first term, in store order; later terms
    /// are not consulted.
    pub fn by_provides(&self, terms: &Vec<String>) -> (r: Vec<usize>)
        requires
            self.wf(),
        ensures
            r@ == provides_hits(self.provs(), terms@),
    {
        if terms.len() == 0 {
            return Vec::new();
        }
        match self.lookup_provides(&terms[0]) {
            Some(v) => v.clone(),
            None => Vec::new(),
        }
    }

    /// Description search: the records indexed under every term, each once.
    /// When no record is, the records that some term names exactly, in term
    /// order, as `by_names` gives them. Each word lists one record per name,
    /// so a result found under words holds at most one record of each name;
    /// across terms, records are matched by their position in the store.
    pub fn by_description(&self, terms: &Vec<String>) -> (r: Vec<usize>)
        requires
            self.wf(),
        ensures
            word_matches(self.words(), terms@) != Set::<usize>::empty() ==> elems(r@) == word_matches(
                self.words(),
                terms@,
            ) && r@.no_duplicates(),
            word_matches(self.words(), terms@) == Set::<usize>::empty() ==> r@ == name_hits(
                self.names(),
                terms@,
            ),
            elems(r@) == description_hits(self.names(), self.words(), terms@),
    {
        let ghost ls = word_lists(self.words(), terms@);
        let mut sets: Vec<&Vec<usize>> = Vec::new();
        let mut missing = false;
        let mut j: usize = 0;
        while j < terms.len()
            invariant
                self.wf(),
                j <= terms@.len(),
                ls == word_lists(self.words(), terms@),
                !missing ==> sets@.map_values(|v: &Vec<usize>| v@) == ls.take(j as int),
                missing ==> exists|q: int| 0 <= q < j && (#[trigger] ls[q]).len() == 0,
                forall|q: int| 0 <= q < sets@.len() ==> (#[trigger] sets@[q])@.no_duplicates(),
            decreases terms@.len() - j,
        {
            match self.lookup_word(&terms[j]) {
                Some(v) => {
                    let ghost prev = sets@;
                    sets.push(v);
                    assert forall|q: int| 0 <= q < sets@.len() implies (#[trigger] sets@[q])@.no_duplicates() by {
                        if q < prev.len() {
                            assert(sets@[q] == prev[q]);
                        }
                    }
                },
                None => {
                    missing = true;
                    assert(ls[j as int].len() == 0);
                },
            }
            proof {
                if !missing {
                    assert(sets@.map_values(|v: &Vec<usize>| v@) =~= ls.take(j + 1));
                }
            }
            j += 1;
        }
        let found = if missing || terms.len() == 0 {
            proof {
                assert(word_matches(self.words(), terms@) =~= Set::<usize>::empty()) by {
                    if missing {
                        let q = choose|q: int| 0 <= q < terms@.len() && (#[trigger] ls[q]).len() == 0;
                        assert forall|x: usize| !common(ls).contains(x) by {
                            assert(!ls[q].contains(x));
                        }
                    }
                }
            }
            Vec::new()
        } else {
            assert(ls.take(terms@.len() as int) =~= ls);
            (&sets).apply(intersections)
        };
        if found.len() == 0 {
            proof {
                if !(missing || terms@.len() == 0) {
                    assert(elems(found@) =~= Set::<usize>::empty());
                }
            }
            self.by_names(terms)
        } else {
            proof {
                assert(elems(found@).contains(found@[0]));
            }
            found
        }
    }

    /// Answers a query in the given mode.
    pub fn search(&self, terms: &Vec<String>, mode: Mode) -> (r: Vec<usize>)
        requires
            self.wf(),
        ensures
            match mode {
                Mode::Name => r@ == name_hits(self.names(), terms@),
                Mode::Provides => r@ == provides_hits(self.provs(), terms@),
                Mode::Description => elems(r@) == description_hits(self.names(), self.words(), terms@),
            },
    {
        match mode {
            Mode::Name => self.by_names(terms),
            Mode::Provides => self.by_provides(terms),
            Mode::Description => self.by_description(terms),
        }
    }
}

/// Adding terms to a description query never widens its result, as long as
/// the longer query still finds records under all of its terms, so that it
/// does not fall back to name matching.
pub proof fn lemma_description_narrows(ix: Index, terms: Seq<String>, more: Seq<String>)
    requires
        terms.len() > 0,
        forall|i: int|
            0 <= i < terms.len() ==> exists|j: int|
                0 <= j < more.len() && (#[trigger] more[j])@ == (#[trigger] terms[i])@,
        word_matches(ix.words(), more) != Set::<usize>::empty(),
    ensures
        description_hits(ix.names(), ix.words(), more).subset_of(
            description_hits(ix.names(), ix.words(), terms),
        ),
{
    let words = ix.words();
    let lt = word_lists(words, terms);
    let lm = word_lists(words, more);
    assert forall|x: usize| #[trigger] word_matches(words, more).contains(x) implies word_matches(
        words,
        terms,
    ).contains(x) by {
        assert forall|i: int| 0 <= i < lt.len() implies #[trigger] lt[i].contains(x) by {
            let j = choose|j: int| 0 <= j < more.len() && (#[trigger] more[j])@ == (#[trigger] terms[i])@;
            assert(lm[j].contains(x));
            assert(lm[j] == lt[i]);
        }
    }
    let x = choose|x: usize| word_matches(words, more).contains(x);
    if word_matches(words, terms) == Set::<usize>::empty() {
        assert(!word_matches(words, more).contains(x)) by {
            assert(!word_matches(words, terms).contains(x));
        }
        assert(word_matches(words, more) =~= Set::<usize>::empty());
    }
}

proof fn lemma_name_hits(names: Map<Seq<char>, usize>, ts: Seq<String>, t: int)
    requires
        0 <= t < ts.len(),
        names.contains_key(ts[t]@),
    ensures
        name_hits(names, ts).contains(names[ts[t]@]),
    decreases ts.len(),
{
    let init = ts.drop_last();
    let h = name_hits(names, ts);
    let a = name_hits(names, init);
    if t == ts.len() - 1 {
        assert(h[a.len() as int] == names[ts[t]@]);
    } else {
        assert(init[t] == ts[t]);
        lemma_name_hits(names, init, t);
        let q = choose|q: int| 0 <= q < a.len() && a[q] == names[ts[t]@];
        assert(h[q] == a[q]);
    }
}

/// When the terms of a description query are not all found together under
/// words, a term that is exactly a package's name still returns that package.
pub proof fn lemma_description_falls_back(ix: Index, terms: Seq<String>, t: int)
    requires
        word_matches(ix.words(), terms) == Set::<usize>::empty(),
        0 <= t < terms.len(),
        ix.names().contains_key(terms[t]@),
    ensures
        description_hits(ix.names(), ix.words(), terms).contains(ix.names()[terms[t]@]),
{
    lemma_name_hits(ix.names(), terms, t);
}

/// A description search that finds records under all its terms returns at
/// most one record of each name.
pub proof fn lemma_description_one_per_name(
    ix: Index,
    recs: Seq<PackageRecord>,
    terms: Seq<String>,
    x: usize,
    y: usize,
)
    requires
        ix.indexes(recs),
        recs.len() <= usize::MAX,
        word_matches(ix.words(), terms) != Set::<usize>::empty(),
        description_hits(ix.names(), ix.words(), terms).contains(x),
        description_hits(ix.names(), ix.words(), terms).contains(y),
        x != y,
    ensures
        recs[x as int].name@ != recs[y as int].name@,
{
    let ls = word_lists(ix.words(), terms);
    assert(terms.len() > 0) by {
        if terms.len() == 0 {
            assert(word_matches(ix.words(), terms) =~= Set::<usize>::empty());
        }
    }
    let l = ls[0];
    assert(l.contains(x) && l.contains(y));
    let w = terms[0]@;
    assert(ix.words().contains_key(w)) by {
        if !ix.words().contains_key(w) {
            assert(!l.contains(x));
        }
    }
    lemma_word_lists(ix, recs, w, w);
    let p = choose|p: int| 0 <= p < l.len() && l[p] == x;
    let q = choose|q: int| 0 <= q < l.len() && l[q] == y;
    assert(l == ix.words()[w]);
    if p < q {
        assert(recs[ix.words()[w][p] as int].name@ != recs[ix.words()[w][q] as int].name@);
    } else {
        assert(recs[ix.words()[w][q] as int].name@ != recs[ix.words()[w][p] as int].name@);
    }
}

} // verus!
