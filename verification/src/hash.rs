use vstd::prelude::*;
use crate::Cabide;
use crate::error::Error;
use crate::protocol::{read_result, records, needed_blocks, num_blocks, strip_payload, padded,
    round_trips, frame_at, run_end};
use crate::index::{alloc_hit, spec_alloc_off, spec_alloc_state, spec_release};
use crate::res_view;

verus! {

// A hash-partitioned store fans records of one collection out over up to 256
// independent stores, keyed by a caller-supplied one-byte hash of the value.

/// A caller-supplied strategy giving each payload a one-byte hash value. The
/// routing proofs rely on the executable `hash` agreeing with its
/// specification, so the same payload always lands in the same shard.
pub trait HashFn {
    /// The hash value of a payload, as the contracts see it.
    spec fn hash_spec(&self, v: Seq<u8>) -> u8;

    /// The hash value of a payload.
    fn hash(&self, v: &Vec<u8>) -> (r: u8)
        ensures
            r == self.hash_spec(v@),
    ;
}

/// The hash strategy that sends every payload to one fixed shard.
pub struct ConstHash {
    pub value: u8,
}

impl HashFn for ConstHash {
    open spec fn hash_spec(&self, v: Seq<u8>) -> u8 {
        self.value
    }

    fn hash(&self, v: &Vec<u8>) -> u8 {
        self.value
    }
}

/// The hash strategy that routes a payload by its first byte.
pub struct FirstByteHash {}

impl HashFn for FirstByteHash {
    open spec fn hash_spec(&self, v: Seq<u8>) -> u8 {
        if v.len() > 0 {
            v[0]
        } else {
            0
        }
    }

    fn hash(&self, v: &Vec<u8>) -> u8 {
        if v.len() > 0 {
            v[0]
        } else {
            0
        }
    }
}

/// A store fanned out over up to 256 shards by a one-byte hash.
pub struct HashCabide<H: HashFn> {
    /// One slot per possible hash value; a shard is created the first time a
    /// record is routed to it.
    cabides: Vec<Option<Cabide>>,
    /// The routing strategy.
    hash_function: H,
}

impl<H: HashFn> HashCabide<H> {
    /// The shard slots, one per hash value.
    pub closed spec fn shards(&self) -> Seq<Option<Cabide>> {
        self.cabides@
    }

    /// The routing strategy.
    pub closed spec fn hash_fn(&self) -> H {
        self.hash_function
    }

    /// The image of shard `h`: a shard never written is an empty image.
    pub open spec fn shard_image(&self, h: int) -> Seq<u8> {
        match self.shards()[h] {
            Some(c) => c.image(),
            None => Seq::<u8>::empty(),
        }
    }

    /// Blocks of shard `h`.
    pub open spec fn shard_nblocks(&self, h: int) -> int {
        num_blocks(self.shard_image(h))
    }

    /// The append cursor of shard `h`: a shard never written sits at zero.
    pub open spec fn shard_cursor(&self, h: int) -> int {
        match self.shards()[h] {
            Some(c) => c.cursor(),
            None => 0,
        }
    }

    /// The free runs of shard `h`: a shard never written has none.
    pub open spec fn shard_runs(&self, h: int) -> Seq<(u64, u64)> {
        match self.shards()[h] {
            Some(c) => c.free_runs(),
            None => Seq::<(u64, u64)>::empty(),
        }
    }

    /// All shard slots exist and every materialized shard is consistent.
    pub open spec fn wf(&self) -> bool {
        &&& self.shards().len() == 256
        &&& forall|h: int|
            0 <= h < 256 ==> ((#[trigger] self.shards()[h]) matches Some(c) ==> c.wf())
    }

    /// Sum of the shard block counts over shards `[0, h)`.
    pub open spec fn blocks_upto(&self, h: int) -> int
        decreases h,
    {
        if h <= 0 {
            0
        } else {
            self.blocks_upto(h - 1) + self.shard_nblocks(h - 1)
        }
    }

    /// A fresh store routed by `hash_function`: no shard exists yet.
    pub fn new(hash_function: H) -> (r: HashCabide<H>)
        ensures
            r.wf(),
            r.hash_fn() == hash_function,
            forall|h: int| 0 <= h < 256 ==> (#[trigger] r.shards()[h]) is None,
    {
        let mut cabides: Vec<Option<Cabide>> = Vec::new();
        let mut i: usize = 0;
        while i < 256
            invariant
                0 <= i <= 256,
                cabides@.len() == i,
                forall|h: int| 0 <= h < i ==> (#[trigger] cabides@[h]) is None,
            decreases 256 - i,
        {
            cabides.push(None);
            i = i + 1;
        }
        HashCabide { cabides, hash_function }
    }

    /// Place an already opened store in the slot of hash value `value`, as
    /// when a shard's image is recovered from earlier use.
    pub fn install_shard(&mut self, value: u8, store: Cabide)
        requires
            old(self).wf(),
            store.wf(),
        ensures
            final(self).wf(),
            final(self).hash_fn() == old(self).hash_fn(),
            final(self).shards() == old(self).shards().update(value as int, Some(store)),
    {
        self.cabides.set(value as usize, Some(store));
    }

    /// The raw bytes of a materialized shard, for a layer that mirrors each
    /// shard to its own file.
    pub fn shard_bytes(&self, value: u8) -> (r: Option<&Vec<u8>>)
        requires
            self.wf(),
        ensures
            match r {
                Some(b) => self.shards()[value as int] is Some && b@ == self.shard_image(
                    value as int,
                ),
                None => self.shards()[value as int] is None,
            },
    {
        match &self.cabides[value as usize] {
            Some(c) => Some(c.bytes()),
            None => None,
        }
    }

    /// Total number of blocks across all materialized shards.
    pub fn blocks(&self) -> (r: u64)
        requires
            self.wf(),
            self.blocks_upto(256) <= u64::MAX,
        ensures
            r == self.blocks_upto(256),
    {
        let mut total: u64 = 0;
        let mut h: usize = 0;
        while h < 256
            invariant
                0 <= h <= 256,
                self.wf(),
                total == self.blocks_upto(h as int),
                self.blocks_upto(256) <= u64::MAX,
            decreases 256 - h,
        {
            proof {
                lemma_blocks_upto_mono(self, h as int + 1, 256);
                assert(self.blocks_upto(h as int + 1) == self.blocks_upto(h as int)
                    + self.shard_nblocks(h as int));
                assert(self.shard_nblocks(h as int) >= 0);
            }
            match &self.cabides[h] {
                Some(c) => {
                    let b = c.blocks();
                    total = total + b;
                },
                None => {
                    proof {
                        assert(self.shard_nblocks(h as int) == 0);
                    }
                },
            }
            h = h + 1;
        }
        total
    }

    /// Route `obj` to its shard by the hash function, creating the shard on
    /// first use, and store it there. Returns the composite handle: the hash
    /// value and the record's starting block within that shard.
    pub fn write(&mut self, obj: &Vec<u8>) -> (r: (u8, u64))
        requires
            old(self).wf(),
            obj@.len() >= 1,
            (old(self).shard_nblocks(old(self).hash_fn().hash_spec(obj@) as int) + needed_blocks(
                obj@.len() as int,
            )) * 30 <= usize::MAX as int,
        ensures
            final(self).wf(),
            final(self).hash_fn() == old(self).hash_fn(),
            r.0 == old(self).hash_fn().hash_spec(obj@),
            ({
                let h = r.0 as int;
                &&& (forall|g: int|
                    0 <= g < 256 && g != h ==> #[trigger] final(self).shards()[g] == old(self).shards()[g])
                &&& final(self).shards()[h] is Some
                &&& read_result(final(self).shard_image(h), r.1 as int) == Ok::<Seq<u8>, Error>(
                    strip_payload(padded(obj@)),
                )
                &&& (round_trips(obj@) ==> read_result(final(self).shard_image(h), r.1 as int)
                    == Ok::<Seq<u8>, Error>(obj@))
                &&& (forall|b: int|
                    0 <= b && !(r.1 <= b < r.1 + needed_blocks(obj@.len() as int))
                        ==> #[trigger] read_result(final(self).shard_image(h), b) == read_result(
                        old(self).shard_image(h),
                        b,
                    ))
                &&& final(self).shard_nblocks(h) >= old(self).shard_nblocks(h)
                // the base store's allocation policy, lifted to the shard:
                // the handle, the shard's free runs, cursor and exact block
                // count are all pinned
                &&& ({
                    let n = needed_blocks(obj@.len() as int);
                    let nu = n as u64;
                    let runs = old(self).shard_runs(h);
                    &&& (alloc_hit(runs, nu) ==> r.1 == spec_alloc_off(runs, nu) && final(self).shard_runs(h) == spec_alloc_state(runs, nu) && final(self).shard_cursor(h)
                        == old(self).shard_cursor(h) && final(self).shard_nblocks(h) == old(self).shard_nblocks(h))
                    &&& (!alloc_hit(runs, nu) ==> r.1 == old(self).shard_cursor(h) && final(self).shard_runs(h) == runs && final(self).shard_cursor(h) == old(self).shard_cursor(h) + n && final(self).shard_nblocks(h) == (if old(self).shard_nblocks(h) >= r.1 + n {
                        old(self).shard_nblocks(h) as int
                    } else {
                        r.1 + n
                    }))
                    &&& r.1 + n <= final(self).shard_nblocks(h)
                    // and the shard's image changes bit-exactly
                    &&& final(self).shard_image(h).len() == (if (r.1 + n) * 30 > old(self).shard_image(h).len() {
                        (r.1 + n) * 30
                    } else {
                        old(self).shard_image(h).len() as int
                    })
                    &&& (forall|j: int|
                        0 <= j < old(self).shard_image(h).len() && !(r.1 * 30 <= j < (r.1 + n)
                            * 30) ==> #[trigger] final(self).shard_image(h)[j] == old(self).shard_image(h)[j])
                    &&& (forall|bb: int, o: int|
                        0 <= bb < n && 0 <= o < 30 ==> final(self).shard_image(h)[(r.1 + bb) * 30
                            + o] == #[trigger] frame_at(obj@, bb, o))
                })
            }),
    {
        let hash = self.hash_function.hash(obj);
        let hu = hash as usize;
        let mut slot = self.cabides.remove(hu);
        let block: u64;
        match slot {
            Some(mut cabide) => {
                block = cabide.write(obj);
                slot = Some(cabide);
            },
            None => {
                let mut cabide = Cabide::new(Vec::new(), None);
                proof {
                    assert(crate::protocol::pad_blocks(Seq::<u8>::empty())
                        =~= Seq::<u8>::empty());
                }
                block = cabide.write(obj);
                slot = Some(cabide);
            },
        }
        self.cabides.insert(hu, slot);
        proof {
            assert(self.cabides@ =~= old(self).shards().update(hash as int, slot));
        }
        (hash, block)
    }

    /// Decode the record behind a composite handle. A hash value whose shard
    /// was never created fails with `NotExistant`; within a shard, the block
    /// fails as `read` on the base store does.
    pub fn read(&self, handle: (u8, u64)) -> (r: Result<Vec<u8>, Error>)
        requires
            self.wf(),
        ensures
            res_view(r) == (match self.shards()[handle.0 as int] {
                Some(c) => read_result(c.image(), handle.1 as int),
                None => Err(Error::NotExistant),
            }),
    {
        let (hash, block) = handle;
        match &self.cabides[hash as usize] {
            Some(c) => c.read(block),
            None => Err(Error::NotExistant),
        }
    }

    /// Remove the record behind a composite handle and return its payload,
    /// releasing its blocks inside its shard for reuse.
    pub fn remove(&mut self, handle: (u8, u64)) -> (r: Result<Vec<u8>, Error>)
        requires
            old(self).wf(),
        ensures
            final(self).wf(),
            final(self).hash_fn() == old(self).hash_fn(),
            forall|g: int|
                0 <= g < 256 && g != handle.0 as int ==> #[trigger] final(self).shards()[g] == old(self).shards()[g],
            res_view(r) == (match old(self).shards()[handle.0 as int] {
                Some(c) => read_result(c.image(), handle.1 as int),
                None => Err(Error::NotExistant),
            }),
            r is Ok ==> ({
                let h = handle.0 as int;
                let e = run_end(old(self).shard_image(h), handle.1 as int);
                &&& (forall|b: int|
                    handle.1 <= b < e ==> #[trigger] read_result(final(self).shard_image(h), b)
                        == Err::<Seq<u8>, Error>(Error::EmptyBlock))
                &&& (forall|b: int|
                    0 <= b && !(handle.1 <= b < e) ==> #[trigger] read_result(
                        final(self).shard_image(h),
                        b,
                    ) == read_result(old(self).shard_image(h), b))
                // the freed run is released into this shard's index,
                // eligible for reuse there; cursor and size are untouched,
                // and only the run's tag bytes change
                &&& handle.1 < e <= old(self).shard_nblocks(h)
                &&& final(self).shard_cursor(h) == old(self).shard_cursor(h)
                &&& final(self).shard_runs(h) == spec_release(
                    old(self).shard_runs(h),
                    handle.1,
                    (e - handle.1) as u64,
                )
                &&& final(self).shard_nblocks(h) == old(self).shard_nblocks(h)
                &&& final(self).shard_image(h).len() == old(self).shard_image(h).len()
                &&& (forall|j: int|
                    0 <= j < old(self).shard_image(h).len() && !(handle.1 * 30 <= j < e * 30 && j
                        % 30 == 0) ==> #[trigger] final(self).shard_image(h)[j] == old(
                        self,
                    ).shard_image(h)[j])
                &&& (forall|bb: int|
                    handle.1 <= bb < e ==> #[trigger] final(self).shard_image(h)[bb * 30] == 0)
            }),
            r is Err ==> ({
                let h = handle.0 as int;
                &&& final(self).shard_image(h) == old(self).shard_image(h)
                &&& final(self).shard_cursor(h) == old(self).shard_cursor(h)
                &&& final(self).shard_runs(h) == old(self).shard_runs(h)
            }),
    {
        let (hash, block) = handle;
        let hu = hash as usize;
        let mut slot = self.cabides.remove(hu);
        let r: Result<Vec<u8>, Error>;
        match slot {
            Some(mut cabide) => {
                r = cabide.remove(block);
                slot = Some(cabide);
            },
            None => {
                r = Err(Error::NotExistant);
                slot = None;
            },
        }
        self.cabides.insert(hu, slot);
        proof {
            assert(self.cabides@ =~= old(self).shards().update(hash as int, slot));
            if slot == old(self).shards()[hash as int] {
                assert(self.cabides@ =~= old(self).shards());
            }
        }
        r
    }
}

/// The payloads the predicate kept, shard by shard in ascending hash order.
pub open spec fn shards_selected<H: HashFn>(
    s: &HashCabide<H>,
    keeps: Seq<Seq<bool>>,
    h: int,
) -> Seq<Seq<u8>>
    decreases h,
{
    if h <= 0 {
        Seq::<Seq<u8>>::empty()
    } else {
        shards_selected(s, keeps, h - 1) + crate::selected(
            records(s.shard_image(h - 1)),
            keeps[h - 1],
        )
    }
}

/// The predicate was called on record `i` of shard `g` and answered
/// `keeps[g][i]`.
pub open spec fn kept_matches<H: HashFn, F: Fn(&Vec<u8>) -> bool>(
    s: &HashCabide<H>,
    f: F,
    keeps: Seq<Seq<bool>>,
    g: int,
    i: int,
) -> bool {
    exists|av: Vec<u8>|
        av@ == records(s.shard_image(g))[i].1 && call_ensures(f, (&av,), keeps[g][i])
}

impl<H: HashFn> HashCabide<H> {
    /// All records whose payloads the predicate accepts, the shards visited
    /// in ascending hash-value order and each shard in ascending block
    /// order.
    #[verifier::loop_isolation(false)]
    pub fn filter<F: Fn(&Vec<u8>) -> bool + Copy>(&self, f: F) -> (r: Vec<Vec<u8>>)
        requires
            self.wf(),
            forall|v: &Vec<u8>| #[trigger] call_requires(f, (v,)),
        ensures
            exists|keeps: Seq<Seq<bool>>|
                {
                    &&& #[trigger] keeps.len() == 256
                    &&& (forall|h: int|
                        0 <= h < 256 ==> (#[trigger] keeps[h]).len() == records(
                            self.shard_image(h),
                        ).len())
                    &&& (forall|h: int, i: int|
                        0 <= h < 256 && 0 <= i < records(self.shard_image(h)).len()
                            ==> #[trigger] kept_matches(self, f, keeps, h, i))
                    &&& crate::views_of(r@) == shards_selected(self, keeps, 256)
                },
    {
        let mut out: Vec<Vec<u8>> = Vec::new();
        let ghost keeps: Seq<Seq<bool>> = Seq::empty();
        let mut h: usize = 0;
        proof {
            assert(crate::views_of(out@) =~= shards_selected(self, keeps, 0));
        }
        while h < 256
            invariant
                0 <= h <= 256,
                keeps.len() == h,
                forall|g: int|
                    0 <= g < h ==> (#[trigger] keeps[g]).len() == records(
                        self.shard_image(g),
                    ).len(),
                forall|g: int, i: int|
                    0 <= g < h && 0 <= i < records(self.shard_image(g)).len()
                        ==> #[trigger] kept_matches(self, f, keeps, g, i),
                crate::views_of(out@) == shards_selected(self, keeps, h as int),
            decreases 256 - h,
        {
            let ghost keeps0 = keeps;
            let ghost out0 = out@;
            match &self.cabides[h] {
                Some(c) => {
                    let mut part = c.filter(f);
                    let ghost partv = part@;
                    proof {
                        assert(self.shard_image(h as int) == c.image());
                        let kp = choose|keep: Seq<bool>|
                            {
                                let recs = records(c.image());
                                &&& #[trigger] keep.len() == recs.len()
                                &&& (forall|i: int|
                                    0 <= i < recs.len() ==> exists|av: Vec<u8>|
                                        av@ == (#[trigger] recs[i]).1 && call_ensures(
                                            f,
                                            (&av,),
                                            keep[i],
                                        ))
                                &&& crate::views_of(part@) == crate::selected(recs, keep)
                            };
                        keeps = keeps.push(kp);
                        assert(keeps[h as int] == kp);
                    }
                    out.append(&mut part);
                    proof {
                        assert(crate::views_of(out@) =~= crate::views_of(out0) + crate::views_of(
                            partv,
                        ));
                        lemma_shards_selected_congruence(self, keeps0, keeps, h as int);
                        assert(crate::views_of(out@) =~= shards_selected(
                            self,
                            keeps,
                            h as int + 1,
                        ));
                        assert forall|g: int|
                            0 <= g < h + 1 implies (#[trigger] keeps[g]).len() == records(
                            self.shard_image(g),
                        ).len() by {
                            if g < h {
                                assert(keeps[g] == keeps0[g]);
                            }
                        }
                        assert forall|g: int, i: int|
                            0 <= g < h + 1 && 0 <= i < records(self.shard_image(g)).len()
                                implies #[trigger] kept_matches(self, f, keeps, g, i) by {
                            if g < h {
                                assert(kept_matches(self, f, keeps0, g, i));
                                assert(keeps[g] == keeps0[g]);
                                assert(keeps[g][i] == keeps0[g][i]);
                            } else {
                                assert(g == h as int);
                                let av0 = choose|av: Vec<u8>|
                                    av@ == (#[trigger] records(c.image())[i]).1 && call_ensures(
                                        f,
                                        (&av,),
                                        keeps[h as int][i],
                                    );
                                assert(av0@ == records(self.shard_image(g))[i].1 && call_ensures(
                                    f,
                                    (&av0,),
                                    keeps[g][i],
                                ));
                            }
                        }
                    }
                },
                None => {
                    proof {
                        keeps = keeps.push(Seq::<bool>::empty());
                        assert(records(self.shard_image(h as int)) =~= Seq::<(
                            u64,
                            Seq<u8>,
                        )>::empty()) by {
                            assert(num_blocks(Seq::<u8>::empty()) == 0);
                        }
                        assert(crate::selected(
                            records(self.shard_image(h as int)),
                            Seq::<bool>::empty(),
                        ) =~= Seq::<Seq<u8>>::empty());
                        lemma_shards_selected_congruence(self, keeps0, keeps, h as int);
                        assert(crate::views_of(out@) =~= shards_selected(
                            self,
                            keeps,
                            h as int + 1,
                        ));
                        assert forall|g: int|
                            0 <= g < h + 1 implies (#[trigger] keeps[g]).len() == records(
                            self.shard_image(g),
                        ).len() by {
                            if g < h {
                                assert(keeps[g] == keeps0[g]);
                            }
                        }
                        assert forall|g: int, i: int|
                            0 <= g < h + 1 && 0 <= i < records(self.shard_image(g)).len()
                                implies #[trigger] kept_matches(self, f, keeps, g, i) by {
                            if g < h {
                                assert(kept_matches(self, f, keeps0, g, i));
                                assert(keeps[g] == keeps0[g]);
                                assert(keeps[g][i] == keeps0[g][i]);
                            } else {
                                assert(records(self.shard_image(g)).len() == 0);
                            }
                        }
                    }
                },
            }
            h = h + 1;
        }
        proof {
            assert(keeps.len() == 256);
            assert(crate::views_of(out@) == shards_selected(self, keeps, 256));
        }
        out
    }
}

proof fn lemma_shards_selected_congruence<H: HashFn>(
    s: &HashCabide<H>,
    k1: Seq<Seq<bool>>,
    k2: Seq<Seq<bool>>,
    h: int,
)
    requires
        forall|g: int| 0 <= g < h ==> #[trigger] k1[g] == k2[g],
    ensures
        shards_selected(s, k1, h) == shards_selected(s, k2, h),
    decreases h,
{
    if h > 0 {
        lemma_shards_selected_congruence(s, k1, k2, h - 1);
    }
}

proof fn lemma_blocks_upto_mono<H: HashFn>(s: &HashCabide<H>, h1: int, h2: int)
    requires
        0 <= h1 <= h2,
    ensures
        s.blocks_upto(h1) <= s.blocks_upto(h2),
    decreases h2 - h1,
{
    if h1 < h2 {
        lemma_blocks_upto_mono(s, h1, h2 - 1);
        assert(s.shard_nblocks(h2 - 1) >= 0);
    }
}

} // verus!
