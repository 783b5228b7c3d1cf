//! Normalized interning store.
//!
//! Each distinct 256-bit fingerprint receives a stable, ascending position
//! id.  A fingerprint's four 64-bit words are first interned independently in
//! four quarter tables — one per word position — and the resulting 4-tuple of
//! quarter ids is then interned in the combining position table.  Every step
//! is an explicit upsert: insert on first sighting, fetch afterwards, so the
//! operation is idempotent and equal bit patterns always resolve to one id.

use vstd::prelude::*;

verus! {

/// One quarter table: the distinct 64-bit words observed at one word
/// position, in order of first sighting.  Row `i` carries id `i + 1`, as
/// storage-native ascending row ids do.
pub struct QuarterTable {
    rows: Vec<u64>,
}

impl QuarterTable {
    /// The distinct words in id order: the word with id `i + 1` stands in
    /// row `i`.
    pub closed spec fn rows_view(self) -> Seq<u64> {
        self.rows@
    }

    /// Rows are pairwise distinct: one id per word, one word per id.
    pub closed spec fn wf(self) -> bool {
        forall|i: int, j: int|
            0 <= j < i < self.rows_view().len() ==> self.rows_view()[i] != self.rows_view()[j]
    }

    /// An empty table.
    fn new() -> (r: Self)
        ensures
            r.wf(),
            r.rows_view().len() == 0,
    {
        QuarterTable { rows: Vec::<u64>::new() }
    }

    /// Insert-or-fetch: the word's id, assigning the next ascending id on
    /// first sighting.  The length cap is forced by the 64-bit id space.
    fn upsert(&mut self, w: u64) -> (id: u64)
        requires
            old(self).wf(),
            old(self).rows_view().len() < 0xffff_ffff_ffff_ffff,
        ensures
            final(self).wf(),
            1 <= id <= final(self).rows_view().len(),
            final(self).rows_view()[id - 1] == w,
            old(self).rows_view().contains(w) ==> final(self).rows_view() == old(
                self,
            ).rows_view(),
            !old(self).rows_view().contains(w) ==> final(self).rows_view() == old(
                self,
            ).rows_view().push(w) && id == final(self).rows_view().len(),
    {
        let mut i: usize = 0;
        let n = self.rows.len();
        while i < n
            invariant
                n == self.rows_view().len(),
                i <= n,
                forall|j: int| 0 <= j < i ==> self.rows_view()[j] != w,
                self.wf(),
                self.rows_view().len() < 0xffff_ffff_ffff_ffff,
            decreases n - i,
        {
            if self.rows[i] == w {
                proof {
                    assert(self.rows_view().contains(w));
                }
                return (i as u64) + 1;
            }
            i += 1;
        }
        proof {
            if self.rows_view().contains(w) {
                let j = choose|j: int| 0 <= j < self.rows_view().len() && self.rows_view()[j] == w;
                assert(false);
            }
        }
        self.rows.push(w);
        (self.rows.len()) as u64
    }

    /// The word an id was assigned to.
    fn get(&self, id: u64) -> (w: u64)
        requires
            1 <= id <= self.rows_view().len(),
        ensures
            w == self.rows_view()[id - 1],
    {
        let n = self.rows.len();
        let ix = (id - 1) as usize;
        proof {
            assert(id - 1 < n);
        }
        self.rows[ix]
    }
}

/// The normalized interning store: four quarter tables and the combining
/// position table.  Equal fingerprints resolve to one stable id; distinct
/// fingerprints to distinct ids.
pub struct PositionStore {
    r12: QuarterTable,
    r34: QuarterTable,
    r56: QuarterTable,
    r78: QuarterTable,
    positions: Vec<(u64, u64, u64, u64)>,
}

impl PositionStore {
    /// The quarter-id 4-tuples in position-id order: the tuple with position
    /// id `i + 1` stands in row `i`.
    pub closed spec fn tuples(self) -> Seq<(u64, u64, u64, u64)> {
        self.positions@
    }

    /// The fingerprint that position row `i` resolves to through the quarter
    /// tables.
    pub closed spec fn fingerprint_at(self, i: int) -> (u64, u64, u64, u64) {
        (
            self.r12.rows_view()[self.positions@[i].0 - 1],
            self.r34.rows_view()[self.positions@[i].1 - 1],
            self.r56.rows_view()[self.positions@[i].2 - 1],
            self.r78.rows_view()[self.positions@[i].3 - 1],
        )
    }

    /// The stored fingerprints in position-id order: the fingerprint with
    /// position id `i + 1` stands at index `i`.
    pub closed spec fn fingerprints(self) -> Seq<(u64, u64, u64, u64)> {
        Seq::new(self.positions@.len(), |i: int| self.fingerprint_at(i))
    }

    /// Well-formed: the quarter tables are well formed, every stored tuple's
    /// quarter ids are live, the tuples are pairwise distinct, and no quarter
    /// table outgrows the position table it serves.
    pub closed spec fn wf(self) -> bool {
        &&& self.r12.wf() && self.r34.wf() && self.r56.wf() && self.r78.wf()
        &&& forall|i: int|
            0 <= i < self.positions@.len() ==> {
                &&& 1 <= (#[trigger] self.positions@[i]).0 <= self.r12.rows_view().len()
                &&& 1 <= self.positions@[i].1 <= self.r34.rows_view().len()
                &&& 1 <= self.positions@[i].2 <= self.r56.rows_view().len()
                &&& 1 <= self.positions@[i].3 <= self.r78.rows_view().len()
            }
        &&& forall|i: int, j: int|
            0 <= j < i < self.positions@.len() ==> #[trigger] self.positions@[i] != #[trigger] self.positions@[j]
        &&& self.r12.rows_view().len() <= self.positions@.len()
        &&& self.r34.rows_view().len() <= self.positions@.len()
        &&& self.r56.rows_view().len() <= self.positions@.len()
        &&& self.r78.rows_view().len() <= self.positions@.len()
    }

    /// An empty store.
    pub fn new() -> (r: Self)
        ensures
            r.wf(),
            r.fingerprints().len() == 0,
    {
        PositionStore {
            r12: QuarterTable::new(),
            r34: QuarterTable::new(),
            r56: QuarterTable::new(),
            r78: QuarterTable::new(),
            positions: Vec::new(),
        }
    }

    /// How many distinct fingerprints have been interned.
    pub fn len(&self) -> (n: usize)
        ensures
            n == self.fingerprints().len(),
    {
        self.positions.len()
    }

    /// Interns a fingerprint: each word is upserted into its quarter table,
    /// and the id 4-tuple is upserted into the position table, whose row id
    /// is returned.  A fingerprint seen before keeps its id and changes
    /// nothing; a new one is appended and receives the next ascending id.
    /// The length cap is forced by the 64-bit id space.
    pub fn intern(&mut self, r12: u64, r34: u64, r56: u64, r78: u64) -> (id: u64)
        requires
            old(self).wf(),
            old(self).fingerprints().len() < 0xffff_ffff_ffff_ffff,
        ensures
            final(self).wf(),
            intern_post(*old(self), (r12, r34, r56, r78), id, *final(self)),
    {
        let ghost o = *old(self);
        let ghost fp = (r12, r34, r56, r78);
        let i1 = self.r12.upsert(r12);
        let i2 = self.r34.upsert(r34);
        let i3 = self.r56.upsert(r56);
        let i4 = self.r78.upsert(r78);
        match find_tuple(&self.positions, i1, i2, i3, i4) {
            Some(k) => {
                proof {
                    let ki = k as int;
                    assert(o.positions@[ki] == (i1, i2, i3, i4));
                    assert(1 <= i1 <= o.r12.rows_view().len() && 1 <= i2
                        <= o.r34.rows_view().len() && 1 <= i3 <= o.r56.rows_view().len() && 1 <= i4
                        <= o.r78.rows_view().len());
                    if !o.r12.rows_view().contains(r12) {
                        assert(i1 == o.r12.rows_view().len() + 1);
                    }
                    assert(self.r12.rows_view() == o.r12.rows_view());
                    if !o.r34.rows_view().contains(r34) {
                        assert(i2 == o.r34.rows_view().len() + 1);
                    }
                    assert(self.r34.rows_view() == o.r34.rows_view());
                    if !o.r56.rows_view().contains(r56) {
                        assert(i3 == o.r56.rows_view().len() + 1);
                    }
                    assert(self.r56.rows_view() == o.r56.rows_view());
                    if !o.r78.rows_view().contains(r78) {
                        assert(i4 == o.r78.rows_view().len() + 1);
                    }
                    assert(self.r78.rows_view() == o.r78.rows_view());
                    assert(self.fingerprints() =~= o.fingerprints());
                    assert(self.fingerprint_at(ki) == fp);
                    assert(o.fingerprints()[ki] == fp);
                    assert(o.fingerprints().contains(fp));
                }
                (k as u64) + 1
            },
            None => {
                let ghost pre = *self;
                self.positions.push((i1, i2, i3, i4));
                proof {
                    lemma_intern_appended(o, pre, *self, fp, i1, i2, i3, i4);
                }
                self.positions.len() as u64
            },
        }
    }

    /// The full export scan: every stored fingerprint with its position id,
    /// ascending by id.
    pub fn get_all(&self) -> (r: Vec<(u64, u64, u64, u64, u64)>)
        requires
            self.wf(),
        ensures
            r@.len() == self.fingerprints().len(),
            forall|i: int|
                0 <= i < r@.len() ==> #[trigger] r@[i] == (
                    (i + 1) as u64,
                    self.fingerprints()[i].0,
                    self.fingerprints()[i].1,
                    self.fingerprints()[i].2,
                    self.fingerprints()[i].3,
                ),
    {
        let mut r: Vec<(u64, u64, u64, u64, u64)> = Vec::new();
        let mut i: usize = 0;
        let n = self.positions.len();
        while i < n
            invariant
                self.wf(),
                n == self.fingerprints().len(),
                i <= n,
                r@.len() == i,
                forall|j: int|
                    0 <= j < i ==> #[trigger] r@[j] == (
                        (j + 1) as u64,
                        self.fingerprints()[j].0,
                        self.fingerprints()[j].1,
                        self.fingerprints()[j].2,
                        self.fingerprints()[j].3,
                    ),
            decreases n - i,
        {
            let t = self.positions[i];
            let w1 = self.r12.get(t.0);
            let w2 = self.r34.get(t.1);
            let w3 = self.r56.get(t.2);
            let w4 = self.r78.get(t.3);
            r.push(((i as u64) + 1, w1, w2, w3, w4));
            i += 1;
        }
        r
    }
}

/// What one intern call promises: the returned id names a live row holding
/// the fingerprint; a fingerprint already present leaves the store as it
/// was, a new one is appended and gets the next ascending id.
pub open spec fn intern_post(
    s0: PositionStore,
    fp: (u64, u64, u64, u64),
    id: u64,
    s1: PositionStore,
) -> bool {
    &&& s1.wf()
    &&& 1 <= id <= s1.fingerprints().len()
    &&& s1.fingerprints()[id - 1] == fp
    &&& s0.fingerprints().contains(fp) ==> s1.fingerprints() == s0.fingerprints()
    &&& !s0.fingerprints().contains(fp) ==> s1.fingerprints() == s0.fingerprints().push(fp) && id
        == s1.fingerprints().len()
}

/// After appending a tuple that the position table lacked, the store holds
/// exactly the old fingerprints plus the new one, which was not there
/// before.  `o` is the store before the quarter upserts, `pre` the store
/// after them, and `s` the store with the tuple appended.
proof fn lemma_intern_appended(
    o: PositionStore,
    pre: PositionStore,
    s: PositionStore,
    fp: (u64, u64, u64, u64),
    i1: u64,
    i2: u64,
    i3: u64,
    i4: u64,
)
    requires
        o.wf(),
        pre.r12.wf() && pre.r34.wf() && pre.r56.wf() && pre.r78.wf(),
        1 <= i1 <= pre.r12.rows_view().len(),
        pre.r12.rows_view()[i1 - 1] == fp.0,
        pre.r12.rows_view() == o.r12.rows_view() || pre.r12.rows_view()
            == o.r12.rows_view().push(fp.0),
        1 <= i2 <= pre.r34.rows_view().len(),
        pre.r34.rows_view()[i2 - 1] == fp.1,
        pre.r34.rows_view() == o.r34.rows_view() || pre.r34.rows_view()
            == o.r34.rows_view().push(fp.1),
        1 <= i3 <= pre.r56.rows_view().len(),
        pre.r56.rows_view()[i3 - 1] == fp.2,
        pre.r56.rows_view() == o.r56.rows_view() || pre.r56.rows_view()
            == o.r56.rows_view().push(fp.2),
        1 <= i4 <= pre.r78.rows_view().len(),
        pre.r78.rows_view()[i4 - 1] == fp.3,
        pre.r78.rows_view() == o.r78.rows_view() || pre.r78.rows_view()
            == o.r78.rows_view().push(fp.3),
        pre.positions@ == o.positions@,
        forall|j: int| 0 <= j < pre.positions@.len() ==> pre.positions@[j] != (i1, i2, i3, i4),
        s.r12 == pre.r12,
        s.r34 == pre.r34,
        s.r56 == pre.r56,
        s.r78 == pre.r78,
        s.positions@ == pre.positions@.push((i1, i2, i3, i4)),
    ensures
        s.wf(),
        !o.fingerprints().contains(fp),
        s.fingerprints() == o.fingerprints().push(fp),
{
    let n = o.positions@.len() as int;
    assert(o.r12.rows_view().len() <= pre.r12.rows_view().len());
    assert(o.r34.rows_view().len() <= pre.r34.rows_view().len());
    assert(o.r56.rows_view().len() <= pre.r56.rows_view().len());
    assert(o.r78.rows_view().len() <= pre.r78.rows_view().len());
    assert forall|i: int|
        0 <= i < s.positions@.len() implies {
            &&& 1 <= (#[trigger] s.positions@[i]).0 <= s.r12.rows_view().len()
            &&& 1 <= s.positions@[i].1 <= s.r34.rows_view().len()
            &&& 1 <= s.positions@[i].2 <= s.r56.rows_view().len()
            &&& 1 <= s.positions@[i].3 <= s.r78.rows_view().len()
        } by {
        if i < n {
            assert(s.positions@[i] == o.positions@[i]);
        } else {
            assert(s.positions@[i] == (i1, i2, i3, i4));
        }
    }
    assert forall|i: int, j: int|
        0 <= j < i < s.positions@.len() implies #[trigger] s.positions@[i]
            != #[trigger] s.positions@[j] by {
        if i < n {
            assert(s.positions@[i] == o.positions@[i]);
            assert(s.positions@[j] == o.positions@[j]);
        } else {
            assert(s.positions@[i] == (i1, i2, i3, i4));
            assert(s.positions@[j] == pre.positions@[j]);
        }
    }
    assert forall|i: int| 0 <= i < n implies s.fingerprint_at(i) == o.fingerprint_at(i) by {
        let t = o.positions@[i];
        assert(s.positions@[i] == t);
        assert(1 <= t.0 <= o.r12.rows_view().len());
        assert(pre.r12.rows_view()[t.0 - 1] == o.r12.rows_view()[t.0 - 1]);
        assert(1 <= t.1 <= o.r34.rows_view().len());
        assert(pre.r34.rows_view()[t.1 - 1] == o.r34.rows_view()[t.1 - 1]);
        assert(1 <= t.2 <= o.r56.rows_view().len());
        assert(pre.r56.rows_view()[t.2 - 1] == o.r56.rows_view()[t.2 - 1]);
        assert(1 <= t.3 <= o.r78.rows_view().len());
        assert(pre.r78.rows_view()[t.3 - 1] == o.r78.rows_view()[t.3 - 1]);
    }
    assert(s.positions@[n] == (i1, i2, i3, i4));
    assert(s.fingerprint_at(n) == fp);
    assert(s.fingerprints() =~= o.fingerprints().push(fp));
    if o.fingerprints().contains(fp) {
        let j = choose|j: int| 0 <= j < o.fingerprints().len() && o.fingerprints()[j] == fp;
        let t = o.positions@[j];
        assert(o.fingerprint_at(j) == fp);
        assert(1 <= t.0 <= o.r12.rows_view().len());
        assert(pre.r12.rows_view()[t.0 - 1] == fp.0);
        assert(pre.r12.rows_view()[i1 - 1] == fp.0);
        assert(t.0 == i1);
        assert(1 <= t.1 <= o.r34.rows_view().len());
        assert(pre.r34.rows_view()[t.1 - 1] == fp.1);
        assert(t.1 == i2);
        assert(1 <= t.2 <= o.r56.rows_view().len());
        assert(pre.r56.rows_view()[t.2 - 1] == fp.2);
        assert(t.2 == i3);
        assert(1 <= t.3 <= o.r78.rows_view().len());
        assert(pre.r78.rows_view()[t.3 - 1] == fp.3);
        assert(t.3 == i4);
        assert(pre.positions@[j] == (i1, i2, i3, i4));
        assert(false);
    }
}

/// Law: a well-formed store's fingerprints are pairwise distinct, so the
/// export scan lists each interned fingerprint exactly once.
pub proof fn lemma_fingerprints_distinct(s: PositionStore, i: int, j: int)
    requires
        s.wf(),
        0 <= j < i < s.fingerprints().len(),
    ensures
        s.fingerprints()[i] != s.fingerprints()[j],
{
    if s.fingerprints()[i] == s.fingerprints()[j] {
        let ti = s.positions@[i];
        let tj = s.positions@[j];
        assert(s.fingerprint_at(i) == s.fingerprint_at(j));
        assert(1 <= ti.0 <= s.r12.rows_view().len() && 1 <= tj.0 <= s.r12.rows_view().len());
        assert(s.r12.rows_view()[ti.0 - 1] == s.r12.rows_view()[tj.0 - 1]);
        assert(ti.0 == tj.0);
        assert(1 <= ti.1 <= s.r34.rows_view().len() && 1 <= tj.1 <= s.r34.rows_view().len());
        assert(s.r34.rows_view()[ti.1 - 1] == s.r34.rows_view()[tj.1 - 1]);
        assert(ti.1 == tj.1);
        assert(1 <= ti.2 <= s.r56.rows_view().len() && 1 <= tj.2 <= s.r56.rows_view().len());
        assert(s.r56.rows_view()[ti.2 - 1] == s.r56.rows_view()[tj.2 - 1]);
        assert(ti.2 == tj.2);
        assert(1 <= ti.3 <= s.r78.rows_view().len() && 1 <= tj.3 <= s.r78.rows_view().len());
        assert(s.r78.rows_view()[ti.3 - 1] == s.r78.rows_view()[tj.3 - 1]);
        assert(ti.3 == tj.3);
        assert(ti == tj);
        assert(false);
    }
}

/// Law: interning a fingerprint a second time returns the same stable id
/// and leaves the store unchanged, and the store holds that fingerprint at
/// exactly one position id.
pub proof fn lemma_intern_idempotent(
    s0: PositionStore,
    s1: PositionStore,
    s2: PositionStore,
    fp: (u64, u64, u64, u64),
    id1: u64,
    id2: u64,
)
    requires
        intern_post(s0, fp, id1, s1),
        intern_post(s1, fp, id2, s2),
    ensures
        id2 == id1,
        s2.fingerprints() == s1.fingerprints(),
        forall|j: int|
            0 <= j < s1.fingerprints().len() ==> (s1.fingerprints()[j] == fp <==> j == id1 - 1),
{
    assert(s1.fingerprints()[id1 - 1] == fp);
    assert(s1.fingerprints().contains(fp));
    assert(s2.fingerprints() == s1.fingerprints());
    assert forall|j: int|
        0 <= j < s1.fingerprints().len() implies (s1.fingerprints()[j] == fp <==> j == id1
            - 1) by {
        if j != id1 - 1 && s1.fingerprints()[j] == fp {
            if j < id1 - 1 {
                lemma_fingerprints_distinct(s1, id1 - 1, j);
            } else {
                lemma_fingerprints_distinct(s1, j, id1 - 1);
            }
        }
    }
    assert(s1.fingerprints()[id2 - 1] == fp);
}

/// Law: fingerprints differing in at least one bit receive different
/// position ids.
pub proof fn lemma_distinct_fingerprints_distinct_ids(
    s0: PositionStore,
    s1: PositionStore,
    s2: PositionStore,
    fp_a: (u64, u64, u64, u64),
    fp_b: (u64, u64, u64, u64),
    id_a: u64,
    id_b: u64,
)
    requires
        intern_post(s0, fp_a, id_a, s1),
        intern_post(s1, fp_b, id_b, s2),
        fp_a != fp_b,
    ensures
        id_a != id_b,
{
    if id_a == id_b {
        assert(s2.fingerprints()[id_b - 1] == fp_b);
        if s1.fingerprints().contains(fp_b) {
            assert(s2.fingerprints() == s1.fingerprints());
            assert(s1.fingerprints()[id_a - 1] == fp_a);
        } else {
            assert(s2.fingerprints() == s1.fingerprints().push(fp_b));
            assert(id_b == s1.fingerprints().len() + 1);
            assert(id_a <= s1.fingerprints().len());
        }
        assert(false);
    }
}

/// Finds the first position row holding this quarter-id tuple.
fn find_tuple(positions: &Vec<(u64, u64, u64, u64)>, i1: u64, i2: u64, i3: u64, i4: u64) -> (r:
    Option<usize>)
    ensures
        match r {
            Some(k) => k < positions@.len() && positions@[k as int] == (i1, i2, i3, i4),
            None => forall|j: int| 0 <= j < positions@.len() ==> positions@[j] != (i1, i2, i3, i4),
        },
{
    let mut k: usize = 0;
    let n = positions.len();
    while k < n
        invariant
            n == positions@.len(),
            k <= n,
            forall|j: int| 0 <= j < k ==> positions@[j] != (i1, i2, i3, i4),
        decreases n - k,
    {
        let p = positions[k];
        if p.0 == i1 && p.1 == i2 && p.2 == i3 && p.3 == i4 {
            proof {
                assert(positions@[k as int] == (i1, i2, i3, i4));
            }
            return Some(k);
        }
        k += 1;
    }
    None
}

} // verus!
