//! Package records and the lookup structures built over them.

use vstd::prelude::*;
use crate::table::Table;
use crate::text::{
    desc_text, is_stop_word, lemma_string_set_push, lemma_word_shape, record_words, string_set,
    tokenize, utf8_len,
};

verus! {

/// One package's metadata, as far as indexing needs it. Records are
/// referred to by their position in the record store.
pub struct PackageRecord {
    pub name: String,
    pub description: Option<String>,
    pub provides: Vec<String>,
}

/// The names under which a record is provided: its declared `provides`, or
/// its own name when it declares none.
pub open spec fn provided(r: PackageRecord) -> Seq<Seq<char>> {
    if r.provides@.len() == 0 {
        seq![r.name@]
    } else {
        r.provides@.map_values(|p: String| p@)
    }
}

/// The words under which a record is indexed.
pub open spec fn words_of(r: PackageRecord) -> Set<Seq<char>> {
    record_words(r.name@, desc_text(r.description))
}

/// The position of the last record named `k`.
pub open spec fn last_named(recs: Seq<PackageRecord>, k: Seq<char>) -> Option<int>
    decreases recs.len(),
{
    if recs.len() == 0 {
        None
    } else if recs.last().name@ == k {
        Some(recs.len() - 1)
    } else {
        last_named(recs.drop_last(), k)
    }
}

/// `i`, once for each entry of `ps` equal to `k`.
pub open spec fn hits(ps: Seq<Seq<char>>, k: Seq<char>, i: usize) -> Seq<usize>
    decreases ps.len(),
{
    if ps.len() == 0 {
        Seq::empty()
    } else {
        hits(ps.drop_last(), k, i) + mark(ps.last() == k, i)
    }
}

/// The records that provide `k`, in store order, a record once for each
/// time it lists `k`.
pub open spec fn prov_ids(recs: Seq<PackageRecord>, k: Seq<char>) -> Seq<usize>
    decreases recs.len(),
{
    if recs.len() == 0 {
        Seq::empty()
    } else {
        prov_ids(recs.drop_last(), k) + hits(provided(recs.last()), k, (recs.len() - 1) as usize)
    }
}

/// Some record at a position in `ids` is named `k`.
pub open spec fn named_in(recs: Seq<PackageRecord>, ids: Seq<usize>, k: Seq<char>) -> bool {
    exists|m: int| 0 <= m < ids.len() && ids[m] < recs.len() && (#[trigger] recs[ids[m] as int]).name@ == k
}

/// The records indexed under word `w`, in store order. A record is the same
/// package as any other of its name, so each name is listed at most once:
/// by the first record of that name whose words hold `w`.
pub open spec fn word_ids(recs: Seq<PackageRecord>, w: Seq<char>) -> Seq<usize>
    decreases recs.len(),
{
    if recs.len() == 0 {
        Seq::empty()
    } else {
        let init = recs.drop_last();
        let a = word_ids(init, w);
        a + mark(
            words_of(recs.last()).contains(w) && !named_in(init, a, recs.last().name@),
            (recs.len() - 1) as usize,
        )
    }
}

/// `[i]` when `b` holds, else empty.
pub open spec fn mark(b: bool, i: usize) -> Seq<usize> {
    if b {
        seq![i]
    } else {
        Seq::empty()
    }
}

/// The lookup whose keys are those with a non-empty list under `f`.
pub open spec fn lists_model(f: spec_fn(Seq<char>) -> Seq<usize>) -> Map<Seq<char>, Seq<usize>> {
    Map::new(|k: Seq<char>| f(k).len() > 0, |k: Seq<char>| f(k))
}

/// Name lookup over `recs`: the last record of each name.
pub open spec fn name_model(recs: Seq<PackageRecord>) -> Map<Seq<char>, usize> {
    Map::new(|k: Seq<char>| last_named(recs, k) is Some, |k: Seq<char>| last_named(recs, k)->0 as usize)
}

/// Provides lookup over `recs`.
pub open spec fn prov_model(recs: Seq<PackageRecord>) -> Map<Seq<char>, Seq<usize>> {
    lists_model(|k: Seq<char>| prov_ids(recs, k))
}

/// Word lookup over `recs`.
pub open spec fn word_model(recs: Seq<PackageRecord>) -> Map<Seq<char>, Seq<usize>> {
    lists_model(|w: Seq<char>| word_ids(recs, w))
}

/// Every record listed under a word comes before the end of the store.
proof fn lemma_word_ids_below(recs: Seq<PackageRecord>)
    ensures
        forall|w: Seq<char>, m: int|
            0 <= m < word_ids(recs, w).len() ==> #[trigger] word_ids(recs, w)[m] < recs.len(),
    decreases recs.len(),
{
    if recs.len() > 0 {
        let init = recs.drop_last();
        lemma_word_ids_below(init);
        assert forall|w: Seq<char>, m: int| 0 <= m < word_ids(recs, w).len() implies #[trigger] word_ids(
            recs,
            w,
        )[m] < recs.len() by {
            let a = word_ids(init, w);
            if m < a.len() {
                assert(word_ids(recs, w)[m] == a[m]);
            }
        }
    }
}

/// No two records listed under a word share a name.
proof fn lemma_word_ids_one_per_name(recs: Seq<PackageRecord>)
    requires
        recs.len() <= usize::MAX,
    ensures
        forall|w: Seq<char>, p: int, q: int|
            0 <= p < q < word_ids(recs, w).len() ==> recs[word_ids(recs, w)[p] as int].name@ != recs[#[trigger] word_ids(
                recs,
                w,
            )[q] as int].name@ && #[trigger] word_ids(recs, w)[p] != word_ids(recs, w)[q],
    decreases recs.len(),
{
    if recs.len() > 0 {
        let init = recs.drop_last();
        lemma_word_ids_one_per_name(init);
        lemma_word_ids_below(init);
        assert forall|w: Seq<char>, p: int, q: int| 0 <= p < q < word_ids(recs, w).len() implies recs[word_ids(
            recs,
            w,
        )[p] as int].name@ != recs[#[trigger] word_ids(recs, w)[q] as int].name@ && #[trigger] word_ids(
            recs,
            w,
        )[p] != word_ids(recs, w)[q] by {
            let a = word_ids(init, w);
            let s = word_ids(recs, w);
            let n = (recs.len() - 1) as usize;
            let e = mark(words_of(recs.last()).contains(w) && !named_in(init, a, recs.last().name@), n);
            assert(s == a + e);
            assert(s[p] == a[p]);
            assert(a[p] < init.len());
            assert(recs[a[p] as int] == init[a[p] as int]);
            if q < a.len() {
                assert(s[q] == a[q]);
                assert(a[q] < init.len());
                assert(recs[a[q] as int] == init[a[q] as int]);
                assert(init[a[p] as int].name@ != init[#[trigger] a[q] as int].name@ && a[p] != a[q]);
            } else {
                assert(s[q] == n);
                assert(recs[n as int] == recs.last());
                if init[a[p] as int].name@ == recs.last().name@ {
                    assert(named_in(init, a, recs.last().name@));
                }
            }
        }
    }
}

proof fn lemma_concat_contains(a: Seq<usize>, b: Seq<usize>, x: usize)
    ensures
        (a + b).contains(x) <==> a.contains(x) || b.contains(x),
{
    let c = a + b;
    if c.contains(x) {
        let q = choose|q: int| 0 <= q < c.len() && c[q] == x;
        if q < a.len() {
            assert(a[q] == x);
        } else {
            assert(b[q - a.len()] == x);
        }
    }
    if a.contains(x) {
        let q = choose|q: int| 0 <= q < a.len() && a[q] == x;
        assert(c[q] == x);
    }
    if b.contains(x) {
        let q = choose|q: int| 0 <= q < b.len() && b[q] == x;
        assert(c[q + a.len()] == x);
    }
}

proof fn lemma_hits(ps: Seq<Seq<char>>, k: Seq<char>, i: usize, x: usize)
    ensures
        hits(ps, k, i).contains(x) <==> (x == i && ps.contains(k)),
    decreases ps.len(),
{
    if ps.len() > 0 {
        let init = ps.drop_last();
        lemma_hits(init, k, i, x);
        lemma_concat_contains(hits(init, k, i), mark(ps.last() == k, i), x);
        if ps.last() == k {
            assert(mark(ps.last() == k, i)[0] == i);
            assert(ps[ps.len() - 1] == k);
        }
        if init.contains(k) {
            let q = choose|q: int| 0 <= q < init.len() && init[q] == k;
            assert(ps[q] == k);
        }
        if ps.contains(k) && ps.last() != k {
            let q = choose|q: int| 0 <= q < ps.len() && ps[q] == k;
            assert(init[q] == k);
        }
    }
}

proof fn lemma_prov_ids(recs: Seq<PackageRecord>, k: Seq<char>, x: usize)
    requires
        recs.len() <= usize::MAX,
    ensures
        prov_ids(recs, k).contains(x) <==> (x < recs.len() && provided(recs[x as int]).contains(k)),
    decreases recs.len(),
{
    if recs.len() > 0 {
        let init = recs.drop_last();
        let n = (recs.len() - 1) as usize;
        lemma_prov_ids(init, k, x);
        lemma_concat_contains(prov_ids(init, k), hits(provided(recs.last()), k, n), x);
        lemma_hits(provided(recs.last()), k, n, x);
        if x < init.len() {
            assert(recs[x as int] == init[x as int]);
        }
    }
}

proof fn lemma_last_named(recs: Seq<PackageRecord>, k: Seq<char>)
    ensures
        match last_named(recs, k) {
            Some(j) => 0 <= j < recs.len() && recs[j].name@ == k && forall|j2: int|
                j < j2 < recs.len() ==> (#[trigger] recs[j2]).name@ != k,
            None => forall|j2: int| 0 <= j2 < recs.len() ==> (#[trigger] recs[j2]).name@ != k,
        },
    decreases recs.len(),
{
    if recs.len() > 0 {
        let init = recs.drop_last();
        lemma_last_named(init, k);
        if recs.last().name@ != k {
            match last_named(init, k) {
                Some(j) => {
                    assert forall|j2: int| j < j2 < recs.len() implies (#[trigger] recs[j2]).name@ != k by {
                        if j2 < init.len() {
                            assert(recs[j2] == init[j2]);
                        }
                    }
                    assert(recs[j] == init[j]);
                },
                None => {
                    assert forall|j2: int| 0 <= j2 < recs.len() implies (#[trigger] recs[j2]).name@ != k by {
                        if j2 < init.len() {
                            assert(recs[j2] == init[j2]);
                        }
                    }
                },
            }
        }
    }
}

proof fn lemma_word_ids_nonempty(recs: Seq<PackageRecord>, w: Seq<char>)
    requires
        word_ids(recs, w).len() > 0,
    ensures
        exists|i: int| 0 <= i < recs.len() && words_of(#[trigger] recs[i]).contains(w),
    decreases recs.len(),
{
    let init = recs.drop_last();
    if words_of(recs.last()).contains(w) {
        assert(words_of(recs[recs.len() - 1]).contains(w));
    } else {
        lemma_word_ids_nonempty(init, w);
        let i = choose|i: int| 0 <= i < init.len() && words_of(#[trigger] init[i]).contains(w);
        assert(recs[i] == init[i]);
    }
}

proof fn lemma_word_ids_named(recs: Seq<PackageRecord>, w: Seq<char>, k: Seq<char>)
    requires
        recs.len() <= usize::MAX,
    ensures
        forall|m: int| 0 <= m < word_ids(recs, w).len() ==> words_of(recs[#[trigger] word_ids(recs, w)[m] as int]).contains(w),
        named_in(recs, word_ids(recs, w), k) <==> exists|j: int|
            0 <= j < recs.len() && (#[trigger] recs[j]).name@ == k && words_of(recs[j]).contains(w),
    decreases recs.len(),
{
    if recs.len() > 0 {
        let init = recs.drop_last();
        let n = (recs.len() - 1) as usize;
        let a = word_ids(init, w);
        let s = word_ids(recs, w);
        let c = words_of(recs.last()).contains(w) && !named_in(init, a, recs.last().name@);
        lemma_word_ids_named(init, w, k);
        lemma_word_ids_named(init, w, recs.last().name@);
        lemma_word_ids_below(init);
        assert(s == a + mark(c, n));
        assert forall|m: int| 0 <= m < s.len() implies words_of(recs[#[trigger] s[m] as int]).contains(w) by {
            if m < a.len() {
                assert(s[m] == a[m]);
                assert(recs[a[m] as int] == init[a[m] as int]);
            } else {
                assert(s[m] == n);
            }
        }
        if named_in(recs, s, k) {
            let m = choose|m: int| 0 <= m < s.len() && s[m] < recs.len() && (#[trigger] recs[s[m] as int]).name@ == k;
            assert(words_of(recs[s[m] as int]).contains(w));
            assert(recs[s[m] as int].name@ == k);
        }
        if exists|j: int| 0 <= j < recs.len() && (#[trigger] recs[j]).name@ == k && words_of(recs[j]).contains(w) {
            let j = choose|j: int| 0 <= j < recs.len() && (#[trigger] recs[j]).name@ == k && words_of(recs[j]).contains(w);
            if j < init.len() {
                assert(init[j] == recs[j]);
                assert(named_in(init, a, k));
                let m = choose|m: int| 0 <= m < a.len() && a[m] < init.len() && (#[trigger] init[a[m] as int]).name@ == k;
                assert(s[m] == a[m]);
                assert(recs[s[m] as int] == init[a[m] as int]);
            } else if c {
                assert(s[a.len() as int] == n);
                assert(recs[n as int] == recs.last());
            } else {
                assert(j == n);
                assert(recs[j] == recs.last());
                let m = choose|m: int| 0 <= m < a.len() && a[m] < init.len() && (#[trigger] init[a[m] as int]).name@ == k;
                assert(s[m] == a[m]);
                assert(recs[s[m] as int] == init[a[m] as int]);
            }
        }
    }
}

/// A word lists a record of a given name exactly when some record of that
/// name has the word, every record it lists has the word, and it lists at
/// most one record of each name.
pub proof fn lemma_word_lists(ix: Index, recs: Seq<PackageRecord>, w: Seq<char>, k: Seq<char>)
    requires
        ix.indexes(recs),
        recs.len() <= usize::MAX,
    ensures
        (ix.words().contains_key(w) && named_in(recs, ix.words()[w], k)) <==> exists|j: int|
            0 <= j < recs.len() && (#[trigger] recs[j]).name@ == k && words_of(recs[j]).contains(w),
        ix.words().contains_key(w) ==> forall|m: int|
            0 <= m < ix.words()[w].len() ==> words_of(recs[#[trigger] ix.words()[w][m] as int]).contains(w),
        ix.words().contains_key(w) ==> forall|p: int, q: int|
            0 <= p < q < ix.words()[w].len() ==> recs[#[trigger] ix.words()[w][p] as int].name@ != recs[#[trigger] ix.words()[w][q] as int].name@,
{
    lemma_word_ids_named(recs, w, k);
    lemma_word_ids_one_per_name(recs);
    if !ix.words().contains_key(w) {
        assert(word_ids(recs, w).len() == 0);
        assert(!named_in(recs, word_ids(recs, w), k));
    } else {
        assert(ix.words()[w] == word_ids(recs, w));
        assert forall|p: int, q: int| 0 <= p < q < ix.words()[w].len() implies recs[#[trigger] ix.words()[w][p] as int].name@
            != recs[#[trigger] ix.words()[w][q] as int].name@ by {
            assert(recs[word_ids(recs, w)[p] as int].name@ != recs[word_ids(recs, w)[q] as int].name@);
        }
    }
}

/// A record that declares no provides is found under its own name.
pub proof fn lemma_self_provision(ix: Index, recs: Seq<PackageRecord>, i: int)
    requires
        ix.indexes(recs),
        recs.len() <= usize::MAX,
        0 <= i < recs.len(),
        recs[i].provides@.len() == 0,
    ensures
        ix.provs().contains_key(recs[i].name@),
        ix.provs()[recs[i].name@].contains(i as usize),
{
    let k = recs[i].name@;
    assert(provided(recs[i])[0] == k);
    lemma_prov_ids(recs, k, i as usize);
}

/// A record that declares provides is found under each of them, and under
/// no other name: under its own only when it lists it.
pub proof fn lemma_explicit_provides(ix: Index, recs: Seq<PackageRecord>, i: int, k: Seq<char>)
    requires
        ix.indexes(recs),
        recs.len() <= usize::MAX,
        0 <= i < recs.len(),
        recs[i].provides@.len() > 0,
    ensures
        (ix.provs().contains_key(k) && ix.provs()[k].contains(i as usize)) <==> exists|j: int|
            0 <= j < recs[i].provides@.len() && (#[trigger] recs[i].provides@[j])@ == k,
{
    let ps = provided(recs[i]);
    lemma_prov_ids(recs, k, i as usize);
    if ps.contains(k) {
        let j = choose|j: int| 0 <= j < ps.len() && ps[j] == k;
        assert(recs[i].provides@[j]@ == k);
    }
    if exists|j: int| 0 <= j < recs[i].provides@.len() && (#[trigger] recs[i].provides@[j])@ == k {
        let j = choose|j: int| 0 <= j < recs[i].provides@.len() && (#[trigger] recs[i].provides@[j])@ == k;
        assert(ps[j] == k);
    }
}

/// Looking up a record's name gives exactly one record of that name: the
/// last one in the store.
pub proof fn lemma_name_lookup(ix: Index, recs: Seq<PackageRecord>, i: int)
    requires
        ix.indexes(recs),
        recs.len() <= usize::MAX,
        0 <= i < recs.len(),
    ensures
        ix.names().contains_key(recs[i].name@),
        recs[ix.names()[recs[i].name@] as int].name@ == recs[i].name@,
        i <= ix.names()[recs[i].name@] < recs.len(),
        forall|j: int|
            ix.names()[recs[i].name@] < j < recs.len() ==> (#[trigger] recs[j]).name@ != recs[i].name@,
{
    lemma_last_named(recs, recs[i].name@);
}

/// No key of the word lookup is a stop word, and every key is longer than
/// two bytes.
pub proof fn lemma_word_keys(ix: Index, recs: Seq<PackageRecord>, w: Seq<char>)
    requires
        ix.indexes(recs),
        ix.words().contains_key(w),
    ensures
        !is_stop_word(w),
        utf8_len(w) > 2,
{
    lemma_word_ids_nonempty(recs, w);
    let i = choose|i: int| 0 <= i < recs.len() && words_of(#[trigger] recs[i]).contains(w);
    lemma_word_shape(recs[i].name@, desc_text(recs[i].description), w);
}

/// Whether a record at a position in `v` is named `k`.
fn listed_by_name(db: &Vec<PackageRecord>, v: &Vec<usize>, k: &String) -> (r: bool)
    ensures
        r == named_in(db@, v@, k@),
{
    let mut m: usize = 0;
    while m < v.len()
        invariant
            m <= v@.len(),
            forall|q: int| 0 <= q < m ==> !(v@[q] < db@.len() && (#[trigger] db@[v@[q] as int]).name@ == k@),
        decreases v@.len() - m,
    {
        if v[m] < db.len() && db[v[m]].name == *k {
            return true;
        }
        m += 1;
    }
    false
}

/// Fast lookups over a record store: by name, by provided name and by word.
pub struct Index {
    by_name: Table<usize>,
    by_prov: Table<Vec<usize>>,
    by_word: Table<Vec<usize>>,
}

impl Index {
    closed spec fn tables_wf(&self) -> bool {
        self.by_name.wf() && self.by_prov.wf() && self.by_word.wf()
    }

    /// The tables are well formed and no record is listed twice under a word.
    pub closed spec fn wf(&self) -> bool {
        &&& self.tables_wf()
        &&& forall|w: Seq<char>| #[trigger] self.words().contains_key(w) ==> self.words()[w].no_duplicates()
    }

    /// Name to record.
    pub closed spec fn names(&self) -> Map<Seq<char>, usize> {
        self.by_name@
    }

    /// Provided name to the records that provide it.
    pub closed spec fn provs(&self) -> Map<Seq<char>, Seq<usize>> {
        self.by_prov@.map_values(|v: Vec<usize>| v@)
    }

    /// Word to the records indexed under it, at most one of each name.
    pub closed spec fn words(&self) -> Map<Seq<char>, Seq<usize>> {
        self.by_word@.map_values(|v: Vec<usize>| v@)
    }

    /// Files record `i` under each name that it provides.
    fn add_provides(&mut self, r: &PackageRecord, i: usize, Ghost(base): Ghost<spec_fn(Seq<char>) -> Seq<usize>>)
        requires
            old(self).tables_wf(),
            old(self).provs() == lists_model(base),
        ensures
            final(self).tables_wf(),
            final(self).names() == old(self).names(),
            final(self).words() == old(self).words(),
            final(self).provs() == lists_model(|k: Seq<char>| base(k) + hits(provided(*r), k, i)),
    {
        let mut own: Vec<String> = Vec::new();
        own.push(r.name.clone());
        let list = if r.provides.len() == 0 {
            &own
        } else {
            &r.provides
        };
        let ghost ps = provided(*r);
        assert(list@.map_values(|p: String| p@) =~= ps);
        let mut j: usize = 0;
        proof {
            assert forall|k: Seq<char>| #[trigger] hits(ps.take(0), k, i) == Seq::<usize>::empty() by {
                assert(ps.take(0).len() == 0);
            }
            assert(self.provs() =~= lists_model(|k: Seq<char>| base(k) + hits(ps.take(0), k, i)));
        }
        while j < list.len()
            invariant
                self.tables_wf(),
                self.names() == old(self).names(),
                self.words() == old(self).words(),
                j <= list@.len(),
                list@.map_values(|p: String| p@) == ps,
                self.provs() == lists_model(|k: Seq<char>| base(k) + hits(ps.take(j as int), k, i)),
            decreases list@.len() - j,
        {
            let ghost pre = *self;
            self.by_prov.append(&list[j], i);
            proof {
                let p = list@[j as int]@;
                assert(ps[j as int] == p);
                assert forall|k: Seq<char>| #[trigger] hits(ps.take(j + 1), k, i) == hits(ps.take(j as int), k, i) + if p == k {
                    seq![i]
                } else {
                    Seq::empty()
                } by {
                    assert(ps.take(j + 1).drop_last() =~= ps.take(j as int));
                }
                let fp = base(p) + hits(ps.take(j as int), p, i);
                assert(self.provs() =~= pre.provs().insert(p, self.by_prov@[p]@));
                if pre.provs().contains_key(p) {
                    assert(pre.by_prov@.contains_key(p));
                    assert(pre.provs()[p] == fp);
                } else {
                    assert(!pre.by_prov@.contains_key(p));
                    assert(fp =~= Seq::<usize>::empty());
                }
                assert(self.by_prov@[p]@ =~= fp.push(i));
                assert forall|k: Seq<char>| #[trigger] (base(k) + hits(ps.take(j + 1), k, i)) =~= if p == k {
                    (base(k) + hits(ps.take(j as int), k, i)).push(i)
                } else {
                    base(k) + hits(ps.take(j as int), k, i)
                } by {}
                assert(self.provs() =~= lists_model(|k: Seq<char>| base(k) + hits(ps.take(j + 1), k, i)));
            }
            j += 1;
        }
        assert(ps.take(list@.len() as int) =~= ps);
    }

    /// Files record `i` under each of its words, unless a record of the same
    /// name is listed there already. `dup` tells whether an earlier record
    /// has that name.
    fn add_words(
        &mut self,
        db: &Vec<PackageRecord>,
        i: usize,
        dup: bool,
        Ghost(base): Ghost<spec_fn(Seq<char>) -> Seq<usize>>,
    )
        requires
            old(self).tables_wf(),
            old(self).words() == lists_model(base),
            i < db@.len(),
            forall|w: Seq<char>, m: int| 0 <= m < base(w).len() ==> #[trigger] base(w)[m] < i,
            !dup ==> forall|j: int| 0 <= j < i ==> (#[trigger] db@[j]).name@ != db@[i as int].name@,
        ensures
            final(self).tables_wf(),
            final(self).names() == old(self).names(),
            final(self).provs() == old(self).provs(),
            final(self).words() == lists_model(
                |w: Seq<char>|
                    base(w) + mark(
                        words_of(db@[i as int]).contains(w) && !named_in(db@, base(w), db@[i as int].name@),
                        i,
                    ),
            ),
    {
        let r = &db[i];
        let ghost name = r.name@;
        let ws = tokenize(&r.name, &r.description);
        let mut j: usize = 0;
        proof {
            assert(string_set(ws@.take(0)) =~= Set::empty());
            assert(self.words() =~= lists_model(
                |w: Seq<char>| base(w) + mark(string_set(ws@.take(0)).contains(w) && !named_in(db@, base(w), name), i),
            ));
        }
        while j < ws.len()
            invariant
                self.tables_wf(),
                self.names() == old(self).names(),
                self.provs() == old(self).provs(),
                j <= ws@.len(),
                i < db@.len(),
                *r == db@[i as int],
                name == r.name@,
                forall|w: Seq<char>, m: int| 0 <= m < base(w).len() ==> #[trigger] base(w)[m] < i,
                !dup ==> forall|j: int| 0 <= j < i ==> (#[trigger] db@[j]).name@ != name,
                self.words() == lists_model(
                    |w: Seq<char>|
                        base(w) + mark(string_set(ws@.take(j as int)).contains(w) && !named_in(db@, base(w), name), i),
                ),
            decreases ws@.len() - j,
        {
            let ghost pre = *self;
            let w = &ws[j];
            let ghost wv = w@;
            let ghost seen_before = string_set(ws@.take(j as int)).contains(wv);
            let ghost nb = named_in(db@, base(wv), name);
            let ghost fw = base(wv) + mark(seen_before && !nb, i);
            proof {
                assert(ws@.take(j + 1) =~= ws@.take(j as int).push(ws@[j as int]));
                lemma_string_set_push(ws@.take(j as int), ws@[j as int]);
                if pre.words().contains_key(wv) {
                    assert(pre.by_word@.contains_key(wv));
                    assert(pre.words()[wv] == fw);
                } else {
                    assert(!pre.by_word@.contains_key(wv));
                    assert(fw =~= Seq::<usize>::empty());
                    assert(!nb);
                }
                if !dup {
                    assert(!nb);
                }
            }
            let skip = match self.by_word.get(w) {
                Some(v) => if dup {
                    listed_by_name(db, v, &r.name)
                } else {
                    v.len() > 0 && v[v.len() - 1] == i
                },
                None => false,
            };
            proof {
                if pre.words().contains_key(wv) {
                    if dup {
                        if seen_before && !nb {
                            assert(fw[fw.len() - 1] == i);
                            assert(db@[fw[fw.len() - 1] as int].name@ == name);
                        } else {
                            assert(fw =~= base(wv));
                        }
                    } else {
                        if seen_before {
                            assert(fw.last() == i);
                        } else if fw.len() > 0 {
                            assert(fw =~= base(wv));
                            assert(base(wv)[fw.len() - 1] < i);
                        }
                    }
                }
                assert(skip == (seen_before || nb));
            }
            if !skip {
                self.by_word.append(w, i);
                proof {
                    assert(self.words() =~= pre.words().insert(wv, self.by_word@[wv]@));
                    assert(self.by_word@[wv]@ =~= fw.push(i));
                }
            }
            proof {
                assert forall|k: Seq<char>| (#[trigger] base(k) + mark(string_set(ws@.take(j + 1)).contains(k) && !named_in(db@, base(k), name), i)) =~= if k == wv && !skip {
                    (base(k) + mark(string_set(ws@.take(j as int)).contains(k) && !named_in(db@, base(k), name), i)).push(i)
                } else {
                    base(k) + mark(string_set(ws@.take(j as int)).contains(k) && !named_in(db@, base(k), name), i)
                } by {}
                assert(self.words() =~= lists_model(
                    |w: Seq<char>|
                        base(w) + mark(string_set(ws@.take(j + 1)).contains(w) && !named_in(db@, base(w), name), i),
                ));
            }
            j += 1;
        }
        assert(ws@.take(ws@.len() as int) =~= ws@);
    }

    /// Builds the index over the record store `db` in one pass.
    pub fn new(db: &Vec<PackageRecord>) -> (r: Index)
        ensures
            r.indexes(db@),
            forall|w: Seq<char>, p: int, q: int|
                r.words().contains_key(w) && 0 <= p < q < r.words()[w].len() ==> db@[#[trigger] r.words()[w][p] as int].name@
                    != db@[#[trigger] r.words()[w][q] as int].name@,
    {
        let mut ix = Index { by_name: Table::new(), by_prov: Table::new(), by_word: Table::new() };
        let ghost recs = db@;
        proof {
            let e = recs.take(0);
            assert(ix.names() =~= name_model(e));
            assert(ix.provs() =~= prov_model(e));
            assert(ix.words() =~= word_model(e));
        }
        let mut i: usize = 0;
        while i < db.len()
            invariant
                recs == db@,
                i <= recs.len(),
                ix.tables_wf(),
                ix.names() == name_model(recs.take(i as int)),
                ix.provs() == prov_model(recs.take(i as int)),
                ix.words() == word_model(recs.take(i as int)),
            decreases recs.len() - i,
        {
            let r = &db[i];
            let ghost pre = recs.take(i as int);
            let ghost post = recs.take(i + 1);
            assert(post.drop_last() =~= pre);
            assert(post.last() == recs[i as int]);
            let dup = ix.by_name.get(&r.name).is_some();
            proof {
                lemma_last_named(pre, r.name@);
                if !dup {
                    assert(!name_model(pre).contains_key(r.name@));
                    assert forall|j: int| 0 <= j < i implies (#[trigger] db@[j]).name@ != db@[i as int].name@ by {
                        assert(pre[j] == db@[j]);
                    }
                }
            }
            ix.by_name.insert(r.name.clone(), i);
            assert(ix.names() =~= name_model(post));
            ix.add_provides(r, i, Ghost(|k: Seq<char>| prov_ids(pre, k)));
            assert(ix.provs() =~= prov_model(post));
            proof {
                lemma_word_ids_below(pre);
            }
            proof {
                assert forall|w: Seq<char>| #[trigger] named_in(db@, word_ids(pre, w), r.name@) == named_in(pre, word_ids(pre, w), r.name@) by {
                    let a = word_ids(pre, w);
                    if named_in(db@, a, r.name@) {
                        let m = choose|m: int| 0 <= m < a.len() && a[m] < db@.len() && (#[trigger] db@[a[m] as int]).name@ == r.name@;
                        assert(pre[a[m] as int] == db@[a[m] as int]);
                    }
                    if named_in(pre, a, r.name@) {
                        let m = choose|m: int| 0 <= m < a.len() && a[m] < pre.len() && (#[trigger] pre[a[m] as int]).name@ == r.name@;
                        assert(pre[a[m] as int] == db@[a[m] as int]);
                    }
                }
            }
            ix.add_words(db, i, dup, Ghost(|w: Seq<char>| word_ids(pre, w)));
            assert(ix.words() =~= word_model(post));
            i += 1;
        }
        assert(recs.take(recs.len() as int) =~= recs);
        proof {
            lemma_word_ids_one_per_name(recs);
            assert forall|w: Seq<char>, p: int, q: int|
                ix.words().contains_key(w) && 0 <= p < q < ix.words()[w].len() implies db@[#[trigger] ix.words()[w][p] as int].name@
                    != db@[#[trigger] ix.words()[w][q] as int].name@ by {
                assert(ix.words()[w] == word_ids(recs, w));
                assert(recs[word_ids(recs, w)[p] as int].name@ != recs[word_ids(recs, w)[q] as int].name@);
            }
            assert forall|w: Seq<char>| #[trigger] word_ids(recs, w).no_duplicates() by {
                let a = word_ids(recs, w);
                assert forall|p: int, q: int| 0 <= p < a.len() && 0 <= q < a.len() && p != q implies a[p] != a[q] by {
                    if p < q {
                        assert(a[p] != a[q]);
                    } else {
                        assert(a[q] != a[p]);
                    }
                }
            }
        }
        ix
    }

    /// The record named `k`.
    pub fn lookup_name(&self, k: &String) -> (r: Option<usize>)
        requires
            self.wf(),
        ensures
            r == (if self.names().contains_key(k@) {
                Some(self.names()[k@])
            } else {
                None
            }),
    {
        match self.by_name.get(k) {
            Some(v) => Some(*v),
            None => None,
        }
    }

    /// The records that provide `k`.
    pub fn lookup_provides(&self, k: &String) -> (r: Option<&Vec<usize>>)
        requires
            self.wf(),
        ensures
            match r {
                Some(v) => self.provs().contains_key(k@) && v@ == self.provs()[k@],
                None => !self.provs().contains_key(k@),
            },
    {
        self.by_prov.get(k)
    }

    /// The records indexed under word `k`.
    pub fn lookup_word(&self, k: &String) -> (r: Option<&Vec<usize>>)
        requires
            self.wf(),
        ensures
            match r {
                Some(v) => self.words().contains_key(k@) && v@ == self.words()[k@] && v@.no_duplicates(),
                None => !self.words().contains_key(k@),
            },
    {
        self.by_word.get(k)
    }

    /// This index is the one built over `recs`.
    pub open spec fn indexes(&self, recs: Seq<PackageRecord>) -> bool {
        &&& self.wf()
        &&& self.names() == name_model(recs)
        &&& self.provs() == prov_model(recs)
        &&& self.words() == word_model(recs)
    }
}

} // verus!
