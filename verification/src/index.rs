use vstd::prelude::*;

verus! {

// The free-run index tracks maximal contiguous runs of free blocks as
// `(length, starting block)` entries, kept sorted by length. Entries of equal
// length stand in the order they were released, so the entry at the end of an
// equal-length group is the most recently freed run of that length.

/// Entries are sorted by run length (ties keep release order).
pub open spec fn index_sorted(v: Seq<(u64, u64)>) -> bool {
    forall|i: int, j: int| 0 <= i < j < v.len() ==> (#[trigger] v[i]).0 <= (#[trigger] v[j]).0
}

/// Two block ranges do not overlap.
pub open spec fn runs_disjoint_pair(l1: u64, o1: u64, l2: u64, o2: u64) -> bool {
    o1 + l1 <= o2 || o2 + l2 <= o1
}

/// The index is internally consistent: sorted, every run at least one block
/// long, no run wraps past the block-number space, and no two runs overlap.
pub open spec fn index_wf(v: Seq<(u64, u64)>) -> bool {
    &&& index_sorted(v)
    &&& forall|i: int| 0 <= i < v.len() ==> (#[trigger] v[i]).0 >= 1
    &&& forall|i: int| 0 <= i < v.len() ==> (#[trigger] v[i]).1 + v[i].0 <= u64::MAX
    &&& forall|i: int, j: int|
        0 <= i < v.len() && 0 <= j < v.len() && i != j ==> runs_disjoint_pair(
            (#[trigger] v[i]).0,
            v[i].1,
            (#[trigger] v[j]).0,
            v[j].1,
        )
}

/// Position of the first entry whose run length is at least `n` (the length
/// of the entries sequence if none qualifies).
pub open spec fn first_fit(v: Seq<(u64, u64)>, n: u64) -> int
    decreases v.len(),
{
    if v.len() == 0 {
        0
    } else if v[0].0 >= n {
        0
    } else {
        1 + first_fit(v.drop_first(), n)
    }
}

/// Last position of the equal-length group that starts at `i`.
pub open spec fn group_last(v: Seq<(u64, u64)>, i: int) -> int
    decreases v.len() - i,
{
    if 0 <= i && i + 1 < v.len() && v[i + 1].0 == v[i].0 {
        group_last(v, i + 1)
    } else {
        i
    }
}

/// Where a released run of length `len` goes: after every entry of equal or
/// smaller length.
pub open spec fn release_pos(v: Seq<(u64, u64)>, len: u64) -> int
    decreases v.len(),
{
    if v.len() == 0 {
        0
    } else if v[0].0 <= len {
        1 + release_pos(v.drop_first(), len)
    } else {
        0
    }
}

/// The index after releasing the run `(len, off)`.
pub open spec fn spec_release(v: Seq<(u64, u64)>, off: u64, len: u64) -> Seq<(u64, u64)> {
    v.insert(release_pos(v, len), (len, off))
}

/// Position an allocation of `n` blocks takes its run from: the most recently
/// freed among the runs of the smallest sufficient length.
pub open spec fn alloc_pos(v: Seq<(u64, u64)>, n: u64) -> int {
    group_last(v, first_fit(v, n))
}

/// Whether an allocation of `n` blocks is served from the index at all.
pub open spec fn alloc_hit(v: Seq<(u64, u64)>, n: u64) -> bool {
    first_fit(v, n) < v.len()
}

/// The block number an allocation of `n` blocks returns from the index.
pub open spec fn spec_alloc_off(v: Seq<(u64, u64)>, n: u64) -> u64 {
    v[alloc_pos(v, n)].1
}

/// The index after an allocation of `n` blocks is served from it: the chosen
/// run leaves, and its unused tail is released under its own length.
pub open spec fn spec_alloc_state(v: Seq<(u64, u64)>, n: u64) -> Seq<(u64, u64)> {
    let c = alloc_pos(v, n);
    let chosen = v[c];
    let rest = v.remove(c);
    if chosen.0 > n {
        spec_release(rest, (chosen.1 + n) as u64, (chosen.0 - n) as u64)
    } else {
        rest
    }
}

proof fn lemma_first_fit_at(v: Seq<(u64, u64)>, n: u64, k: int)
    requires
        0 <= k <= v.len(),
        forall|j: int| 0 <= j < k ==> (#[trigger] v[j]).0 < n,
        k == v.len() || v[k].0 >= n,
    ensures
        first_fit(v, n) == k,
    decreases k,
{
    if k == 0 {
        if v.len() > 0 {
            assert(v[0].0 >= n);
        }
    } else {
        assert(v[0].0 < n);
        assert(forall|j: int|
            0 <= j < k - 1 ==> (#[trigger] v.drop_first()[j]).0 == v[j + 1].0 && v[j + 1].0 < n);
        if k < v.len() {
            assert(v.drop_first()[k - 1] == v[k]);
        }
        lemma_first_fit_at(v.drop_first(), n, k - 1);
    }
}

proof fn lemma_first_fit_props(v: Seq<(u64, u64)>, n: u64)
    ensures
        0 <= first_fit(v, n) <= v.len(),
        forall|j: int| 0 <= j < first_fit(v, n) ==> (#[trigger] v[j]).0 < n,
        first_fit(v, n) < v.len() ==> v[first_fit(v, n)].0 >= n,
    decreases v.len(),
{
    if v.len() == 0 || v[0].0 >= n {
    } else {
        lemma_first_fit_props(v.drop_first(), n);
        assert(forall|j: int|
            0 <= j < v.drop_first().len() ==> #[trigger] v.drop_first()[j] == v[j + 1]);
        assert forall|j: int| 0 <= j < first_fit(v, n) implies (#[trigger] v[j]).0 < n by {
            if j > 0 {
                assert(v.drop_first()[j - 1] == v[j]);
            }
        }
    }
}

proof fn lemma_group_last_props(v: Seq<(u64, u64)>, i: int)
    requires
        0 <= i < v.len(),
    ensures
        i <= group_last(v, i) < v.len(),
        v[group_last(v, i)].0 == v[i].0,
        group_last(v, i) + 1 == v.len() || v[group_last(v, i) + 1].0 != v[i].0,
    decreases v.len() - i,
{
    if i + 1 < v.len() && v[i + 1].0 == v[i].0 {
        lemma_group_last_props(v, i + 1);
    }
}

proof fn lemma_release_pos_at(v: Seq<(u64, u64)>, len: u64, k: int)
    requires
        0 <= k <= v.len(),
        forall|j: int| 0 <= j < k ==> (#[trigger] v[j]).0 <= len,
        k == v.len() || v[k].0 > len,
    ensures
        release_pos(v, len) == k,
    decreases k,
{
    if k == 0 {
        if v.len() > 0 {
            assert(v[0].0 > len);
        }
    } else {
        assert(v[0].0 <= len);
        assert(forall|j: int|
            0 <= j < k - 1 ==> (#[trigger] v.drop_first()[j]).0 == v[j + 1].0 && v[j + 1].0
                <= len);
        if k < v.len() {
            assert(v.drop_first()[k - 1] == v[k]);
        }
        lemma_release_pos_at(v.drop_first(), len, k - 1);
    }
}

pub proof fn lemma_release_pos_props(v: Seq<(u64, u64)>, len: u64)
    ensures
        0 <= release_pos(v, len) <= v.len(),
        forall|j: int| 0 <= j < release_pos(v, len) ==> (#[trigger] v[j]).0 <= len,
        release_pos(v, len) < v.len() ==> v[release_pos(v, len)].0 > len,
    decreases v.len(),
{
    if v.len() == 0 || v[0].0 > len {
    } else {
        lemma_release_pos_props(v.drop_first(), len);
        assert(forall|j: int|
            0 <= j < v.drop_first().len() ==> #[trigger] v.drop_first()[j] == v[j + 1]);
        assert forall|j: int| 0 <= j < release_pos(v, len) implies (#[trigger] v[j]).0 <= len by {
            if j > 0 {
                assert(v.drop_first()[j - 1] == v[j]);
            }
        }
    }
}

/// A released run that overlaps no indexed run keeps the index consistent,
/// and the new index holds exactly the old runs plus the released one.
pub proof fn lemma_release_wf(v: Seq<(u64, u64)>, off: u64, len: u64)
    requires
        index_wf(v),
        len >= 1,
        off + len <= u64::MAX,
        forall|j: int|
            0 <= j < v.len() ==> runs_disjoint_pair(len, off, (#[trigger] v[j]).0, v[j].1),
    ensures
        index_wf(spec_release(v, off, len)),
        spec_release(v, off, len).len() == v.len() + 1,
        spec_release(v, off, len)[release_pos(v, len)] == (len, off),
        forall|j: int|
            0 <= j < release_pos(v, len) ==> #[trigger] v[j] == spec_release(v, off, len)[j],
        forall|j: int|
            release_pos(v, len) <= j < v.len() ==> #[trigger] v[j] == spec_release(v, off, len)[j
                + 1],
{
    lemma_release_pos_props(v, len);
    let p = release_pos(v, len);
    let w = spec_release(v, off, len);
    assert(forall|j: int| 0 <= j < p ==> #[trigger] w[j] == v[j]);
    assert(forall|j: int| p < j < w.len() ==> #[trigger] w[j] == v[j - 1]);
    assert(w[p] == (len, off));
    assert(index_sorted(w)) by {
        assert(forall|i: int, j: int|
            0 <= i < j < w.len() && i != p && j != p ==> (#[trigger] w[i]).0 <= (
            #[trigger] w[j]).0);
    }
}

/// The sequence that `spec_alloc_state` produces, described entry by entry,
/// and its consistency. The chosen run leaves; if it was longer than asked,
/// its tail is indexed under the remaining length.
pub proof fn lemma_alloc_wf(v: Seq<(u64, u64)>, n: u64)
    requires
        index_wf(v),
        n >= 1,
        alloc_hit(v, n),
    ensures
        ({
            let c = alloc_pos(v, n);
            &&& 0 <= c < v.len()
            &&& v[c].0 >= n
            &&& forall|j: int| 0 <= j < v.len() ==> (#[trigger] v[j]).0 >= n ==> v[c].0 <= v[j].0
            &&& index_wf(spec_alloc_state(v, n))
            &&& (v[c].0 > n ==> spec_alloc_state(v, n) == spec_release(
                v.remove(c),
                (v[c].1 + n) as u64,
                (v[c].0 - n) as u64,
            ))
            &&& (v[c].0 == n ==> spec_alloc_state(v, n) == v.remove(c))
            &&& index_wf(v.remove(c))
            &&& (v[c].0 > n ==> forall|j: int|
                0 <= j < v.remove(c).len() ==> runs_disjoint_pair(
                    (v[c].0 - n) as u64,
                    (v[c].1 + n) as u64,
                    (#[trigger] v.remove(c)[j]).0,
                    v.remove(c)[j].1,
                ))
            &&& forall|k: int|
                0 <= k < spec_alloc_state(v, n).len() ==> (exists|i: int|
                    0 <= i < v.len() && i != c && #[trigger] spec_alloc_state(v, n)[k] == v[i]) || (
                v[c].0 > n && spec_alloc_state(v, n)[k] == (
                    ((v[c].0 - n) as u64),
                    ((v[c].1 + n) as u64),
                ))
        }),
{
    let f = first_fit(v, n);
    lemma_first_fit_props(v, n);
    lemma_group_last_props(v, f);
    let c = alloc_pos(v, n);
    assert(v[c].0 == v[f].0);
    assert(v[c].0 >= n);
    assert(forall|j: int| 0 <= j < v.len() && (#[trigger] v[j]).0 >= n ==> f <= j);
    assert(forall|j: int| f <= j < v.len() ==> v[f].0 <= (#[trigger] v[j]).0);
    let rest = v.remove(c);
    assert(forall|j: int| 0 <= j < c ==> #[trigger] rest[j] == v[j]);
    assert(forall|j: int| c <= j < rest.len() ==> #[trigger] rest[j] == v[j + 1]);
    assert(index_wf(rest));
    if v[c].0 > n {
        let roff = (v[c].1 + n) as u64;
        let rlen = (v[c].0 - n) as u64;
        assert(forall|j: int|
            0 <= j < rest.len() ==> runs_disjoint_pair(rlen, roff, (#[trigger] rest[j]).0,
            rest[j].1)) by {
            assert(forall|j: int|
                0 <= j < rest.len() ==> exists|i: int|
                    0 <= i < v.len() && i != c && #[trigger] rest[j] == v[i]);
        }
        lemma_release_wf(rest, roff, rlen);
        lemma_release_pos_props(rest, rlen);
        let w = spec_alloc_state(v, n);
        let p = release_pos(rest, rlen);
        assert forall|k: int| 0 <= k < w.len() implies (exists|i: int|
            0 <= i < v.len() && i != c && #[trigger] w[k] == v[i]) || (v[c].0 > n && w[k] == (
            rlen,
            roff,
        )) by {
            if k == p {
                assert(w[k] == (rlen, roff));
            } else {
                let kr = if k < p {
                    k
                } else {
                    k - 1
                };
                assert(0 <= kr < rest.len());
                if k < p {
                    assert(rest[k] == w[k]);
                } else {
                    assert(rest[k - 1] == w[k - 1 + 1]);
                }
                assert(w[k] == rest[kr]);
                if kr < c {
                    assert(rest[kr] == v[kr]);
                } else {
                    assert(rest[kr] == v[kr + 1]);
                }
            }
        }
    } else {
        assert forall|k: int| 0 <= k < rest.len() implies (exists|i: int|
            0 <= i < v.len() && i != c && #[trigger] rest[k] == v[i]) || false by {
            if k < c {
                assert(rest[k] == v[k]);
            } else {
                assert(rest[k] == v[k + 1]);
            }
        }
    }
}

/// The length-indexed free-run store.
pub struct FreeIndex {
    entries: Vec<(u64, u64)>,
}

impl View for FreeIndex {
    type V = Seq<(u64, u64)>;

    closed spec fn view(&self) -> Seq<(u64, u64)> {
        self.entries@
    }
}

impl FreeIndex {
    /// An index with no free runs.
    pub fn new() -> (r: FreeIndex)
        ensures
            r@ == Seq::<(u64, u64)>::empty(),
    {
        let entries: Vec<(u64, u64)> = Vec::new();
        assert(entries@ =~= Seq::<(u64, u64)>::empty());
        FreeIndex { entries }
    }

    /// Record the run of `len` free blocks starting at block `off`. Later
    /// releases of the same length are preferred by later allocations.
    pub fn release(&mut self, off: u64, len: u64)
        requires
            index_wf(old(self)@),
            len >= 1,
            off + len <= u64::MAX,
            forall|j: int|
                0 <= j < old(self)@.len() ==> runs_disjoint_pair(
                    len,
                    off,
                    (#[trigger] old(self)@[j]).0,
                    old(self)@[j].1,
                ),
        ensures
            final(self)@ == spec_release(old(self)@, off, len),
            index_wf(final(self)@),
    {
        proof {
            lemma_release_wf(old(self)@, off, len);
        }
        let mut k: usize = 0;
        while k < self.entries.len() && self.entries[k].0 <= len
            invariant
                *self == *old(self),
                0 <= k <= self.entries.len(),
                forall|j: int| 0 <= j < k ==> (#[trigger] self.entries@[j]).0 <= len,
            decreases self.entries.len() - k,
        {
            k = k + 1;
        }
        proof {
            lemma_release_pos_at(self@, len, k as int);
        }
        self.entries.insert(k, (len, off));
    }

    /// Take a run of at least `n` blocks out of the index: the most recently
    /// freed among the runs of the smallest sufficient length. The unused
    /// tail of the chosen run, if any, stays indexed under its own length.
    /// Returns the chosen run's starting block, or `None` if no run fits.
    pub fn allocate(&mut self, n: u64) -> (r: Option<u64>)
        requires
            index_wf(old(self)@),
            n >= 1,
        ensures
            index_wf(final(self)@),
            !alloc_hit(old(self)@, n) ==> r is None && final(self)@ == old(self)@,
            alloc_hit(old(self)@, n) ==> r == Some(spec_alloc_off(old(self)@, n)) && final(
                self)@ == spec_alloc_state(old(self)@, n),
    {
        let ghost v = self@;
        let mut k: usize = 0;
        while k < self.entries.len() && self.entries[k].0 < n
            invariant
                *self == *old(self),
                0 <= k <= self.entries.len(),
                forall|j: int| 0 <= j < k ==> (#[trigger] self.entries@[j]).0 < n,
            decreases self.entries.len() - k,
        {
            k = k + 1;
        }
        proof {
            lemma_first_fit_at(v, n, k as int);
        }
        if k == self.entries.len() {
            return None;
        }
        // advance to the end of the equal-length group: the last-released run
        // of this length is preferred
        let glen = self.entries[k].0;
        while k + 1 < self.entries.len() && self.entries[k + 1].0 == glen
            invariant
                *self == *old(self),
                0 <= k < self.entries.len(),
                glen == self.entries@[first_fit(v, n)].0,
                first_fit(v, n) <= k,
                forall|j: int|
                    first_fit(v, n) <= j <= k ==> (#[trigger] self.entries@[j]).0 == glen,
            decreases self.entries.len() - k,
        {
            k = k + 1;
            proof {
                assert(self.entries@[k as int].0 == glen);
            }
        }
        proof {
            lemma_first_fit_props(v, n);
            lemma_group_last_at(v, first_fit(v, n), k as int);
            lemma_alloc_wf(v, n);
        }
        let (clen, coff) = self.entries.remove(k);
        proof {
            assert(self@ == v.remove(k as int));
        }
        if clen > n {
            self.release(coff + n, clen - n);
        }
        Some(coff)
    }
}

/// A freed run is eligible for reuse: once a run of `len` blocks is
/// released, an allocation of at most `len` blocks is served from the index
/// rather than from the append cursor.
pub proof fn lemma_freed_run_eligible(v: Seq<(u64, u64)>, off: u64, len: u64, n: u64)
    requires
        1 <= n <= len,
    ensures
        alloc_hit(spec_release(v, off, len), n),
{
    lemma_release_pos_props(v, len);
    let w = spec_release(v, off, len);
    let p = release_pos(v, len);
    assert(w[p] == (len, off));
    lemma_first_fit_props(w, n);
    if first_fit(w, n) == w.len() {
        assert(w[p].0 < n);
    }
}

/// Reuse is last-freed-first within a run length: when no indexed run fits,
/// releasing two runs of one length and then allocating within that length
/// takes the run released second.
pub proof fn lemma_lifo_reuse(v: Seq<(u64, u64)>, o1: u64, o2: u64, len: u64, n: u64)
    requires
        1 <= n <= len,
        forall|j: int| 0 <= j < v.len() ==> (#[trigger] v[j]).0 < n,
    ensures
        ({
            let w = spec_release(spec_release(v, o1, len), o2, len);
            &&& alloc_hit(w, n)
            &&& spec_alloc_off(w, n) == o2
        }),
{
    lemma_release_pos_at(v, len, v.len() as int);
    let v1 = spec_release(v, o1, len);
    assert(v1 == v.insert(v.len() as int, (len, o1)));
    assert(forall|j: int| 0 <= j < v.len() ==> #[trigger] v1[j] == v[j]);
    assert(v1[v.len() as int] == (len, o1));
    lemma_release_pos_at(v1, len, v1.len() as int);
    let v2 = spec_release(v1, o2, len);
    assert(v2 == v1.insert(v1.len() as int, (len, o2)));
    assert(forall|j: int| 0 <= j < v1.len() ==> #[trigger] v2[j] == v1[j]);
    assert(v2[v1.len() as int] == (len, o2));
    lemma_first_fit_at(v2, n, v.len() as int);
    lemma_group_last_at(v2, v.len() as int, v.len() as int + 1);
    assert(alloc_pos(v2, n) == v.len() + 1);
}

proof fn lemma_group_last_at(v: Seq<(u64, u64)>, i: int, k: int)
    requires
        0 <= i <= k < v.len(),
        forall|j: int| i <= j <= k ==> (#[trigger] v[j]).0 == v[i].0,
        k + 1 == v.len() || v[k + 1].0 != v[i].0,
    ensures
        group_last(v, i) == k,
    decreases k - i,
{
    if i < k {
        lemma_group_last_at(v, i + 1, k);
    }
}

} // verus!
