//! A block-structured byte record store.
//!
//! A store binds records to one flat byte image: an exact multiple of
//! [`protocol::BLOCK_SIZE`] bytes, each window of that size one block. A
//! record occupies a contiguous run of blocks and is identified by its
//! starting block number. Freed runs are indexed by length and reused,
//! preferring the smallest sufficient run and, within a length, the most
//! recently freed one; no record is ever fragmented across runs.
//!
//! The store itself works purely on the in-memory image; a surrounding layer
//! owns the file the image mirrors and the encoding of typed values to the
//! byte payloads kept here.

pub mod error;
pub mod hash;
pub mod index;
pub mod order;
pub mod protocol;

pub use crate::error::Error;
pub use crate::protocol::Metadata;

use vstd::prelude::*;
use crate::index::{
    FreeIndex, index_wf, alloc_hit, spec_alloc_off, spec_alloc_state, spec_release,
};
use vstd::seq_lib::group_to_multiset_ensures;
use crate::protocol::{
    BLOCK_SIZE, END_BYTE, num_blocks, tag, needed_blocks, run_end, read_result, records,
    records_upto, well_framed, strip_payload, strip_zeros, padded, round_trips, content_bytes,
    block_content, frame_at, lemma_run_end_at, lemma_content_bytes_unfold, lemma_strip_padded,
    lemma_frame_effect, lemma_run_end_props, pad_blocks, maximal_empty_run, payloads,
    lemma_payloads_after_remove, lemma_remove_to_multiset, lemma_records_split,
    lemma_read_in_records, lemma_records_upto_prefix,
};

verus! {

/// A `Result` of a byte payload, seen abstractly.
pub open spec fn res_view(r: Result<Vec<u8>, Error>) -> Result<Seq<u8>, Error> {
    match r {
        Ok(v) => Ok(v@),
        Err(e) => Err(e),
    }
}

/// The views of a sequence of byte vectors.
pub open spec fn views_of(r: Seq<Vec<u8>>) -> Seq<Seq<u8>> {
    Seq::new(r.len(), |i: int| r[i]@)
}

/// The payloads of the records a predicate kept, in record order.
pub open spec fn selected(recs: Seq<(u64, Seq<u8>)>, keep: Seq<bool>) -> Seq<Seq<u8>>
    decreases recs.len(),
{
    if recs.len() == 0 || keep.len() == 0 {
        Seq::<Seq<u8>>::empty()
    } else {
        let pre = selected(recs.drop_last(), keep.drop_last());
        if keep.last() {
            pre.push(recs.last().1)
        } else {
            pre
        }
    }
}

/// Zero-fill an image up to the next whole block.
#[verifier::loop_isolation(false)]
fn pad_image(data: &mut Vec<u8>)
    ensures
        final(data)@ == pad_blocks(old(data)@),
{
    let ghost orig = data@;
    let ghost pad: int = (30 - orig.len() as int % 30) % 30;
    while data.len() % BLOCK_SIZE != 0
        invariant
            data@.subrange(0, orig.len() as int) == orig,
            orig.len() <= data@.len(),
            data@.len() - orig.len() <= pad,
            forall|j: int| orig.len() <= j < data@.len() ==> #[trigger] data@[j] == 0,
        decreases pad - (data@.len() - orig.len()),
    {
        proof {
            assert(data@.len() - orig.len() < pad) by {
                if data@.len() - orig.len() == pad {
                    assert(data@.len() as int % 30 == 0);
                }
            }
        }
        data.push(0);
        proof {
            assert(data@.subrange(0, orig.len() as int) =~= orig);
        }
    }
    proof {
        assert(data@.len() - orig.len() == pad) by {
            if data@.len() - orig.len() < pad {
                assert(data@.len() as int % 30 != 0);
            }
        }
        assert(data@ =~= pad_blocks(orig));
    }
}

/// Zero-fill an image up to `target` bytes; an image already that long stays
/// as it is.
#[verifier::loop_isolation(false)]
fn extend_zeros(data: &mut Vec<u8>, target: usize)
    ensures
        final(data)@.len() == (if old(data)@.len() >= target {
            old(data)@.len() as int
        } else {
            target as int
        }),
        forall|j: int| 0 <= j < old(data)@.len() ==> #[trigger] final(data)@[j] == old(data)@[j],
        forall|j: int|
            old(data)@.len() <= j < final(data)@.len() ==> #[trigger] final(data)@[j] == 0,
{
    let ghost orig = data@;
    while data.len() < target
        invariant
            orig.len() <= data@.len(),
            data@.len() <= (if target >= orig.len() {
                target as int
            } else {
                orig.len() as int
            }),
            data@.subrange(0, orig.len() as int) == orig,
            forall|j: int| orig.len() <= j < data@.len() ==> #[trigger] data@[j] == 0,
        decreases target - data@.len(),
    {
        data.push(0);
        proof {
            assert(data@.subrange(0, orig.len() as int) =~= orig);
        }
    }
    proof {
        assert forall|j: int| 0 <= j < orig.len() implies #[trigger] data@[j] == orig[j] by {
            assert(data@.subrange(0, orig.len() as int)[j] == data@[j]);
        }
    }
}

/// One recovery scan over a whole-block image: collect its maximal `Empty`
/// runs into a free-run index, exactly as releasing each would.
#[verifier::loop_isolation(false)]
#[verifier::rlimit(100)]
fn scan_free_runs(data: &Vec<u8>) -> (idx: FreeIndex)
    requires
        data@.len() as int % 30 == 0,
    ensures
        index_wf(idx@),
        forall|k: int|
            0 <= k < idx@.len() ==> maximal_empty_run(
                data@,
                (#[trigger] idx@[k]).1 as int,
                idx@[k].0 as int,
            ),
        forall|off: int, len: int|
            #[trigger] maximal_empty_run(data@, off, len) ==> exists|k: int|
                0 <= k < idx@.len() && #[trigger] idx@[k] == ((len as u64), (off as u64)),
{
    let ghost v = data@;
    let dlen = data.len();
    let nb = dlen / BLOCK_SIZE;
    proof {
        assert(nb * 30 == dlen);
        assert(nb == num_blocks(v));
    }
    let mut idx = FreeIndex::new();
    let mut b: usize = 0;
    let mut run_start: usize = 0;
    let mut in_run: bool = false;
    while b < nb
        invariant
            0 <= b <= nb,
            index_wf(idx@),
            in_run ==> run_start < b && (forall|j: int|
                run_start <= j < b ==> #[trigger] tag(v, j) == 0) && (run_start == 0 || tag(
                v,
                run_start - 1,
            ) != 0),
            !in_run ==> (b == 0 || tag(v, b - 1) != 0),
            forall|k: int|
                0 <= k < idx@.len() ==> (#[trigger] idx@[k]).1 + idx@[k].0 <= (if in_run {
                    run_start as int
                } else {
                    b as int
                }),
            forall|k: int|
                0 <= k < idx@.len() ==> maximal_empty_run(
                    v,
                    (#[trigger] idx@[k]).1 as int,
                    idx@[k].0 as int,
                ),
            forall|off: int, len: int|
                #[trigger] maximal_empty_run(v, off, len) && off < b && !(in_run && off
                    == run_start as int) ==> exists|k: int|
                    0 <= k < idx@.len() && #[trigger] idx@[k] == ((len as u64), (off as u64)),
        decreases nb - b,
    {
        let t = data[b * 30];
        proof {
            assert(t == tag(v, b as int));
        }
        if t == 0 {
            if !in_run {
                run_start = b;
                in_run = true;
            }
        } else {
            if in_run {
                let ghost idx0 = idx@;
                let rlen: u64 = (b - run_start) as u64;
                proof {
                    assert(maximal_empty_run(v, run_start as int, rlen as int));
                    assert forall|jj: int|
                        0 <= jj < idx0.len() implies crate::index::runs_disjoint_pair(
                        rlen,
                        run_start as u64,
                        (#[trigger] idx0[jj]).0,
                        idx0[jj].1,
                    ) by {
                        assert(idx0[jj].1 + idx0[jj].0 <= run_start);
                    }
                }
                idx.release(run_start as u64, rlen);
                proof {
                    crate::index::lemma_release_wf(idx0, run_start as u64, rlen);
                    crate::index::lemma_release_pos_props(idx0, rlen);
                    let p = crate::index::release_pos(idx0, rlen);
                    assert forall|k: int|
                        0 <= k < idx@.len() implies (#[trigger] idx@[k]).1 + idx@[k].0 <= b as int
                        && maximal_empty_run(v, idx@[k].1 as int, idx@[k].0 as int) by {
                        if k == p {
                            assert(idx@[k] == (rlen, run_start as u64));
                        } else if k < p {
                            assert(idx0[k] == idx@[k]);
                        } else {
                            assert(idx0[k - 1] == idx@[(k - 1) + 1]);
                        }
                    }
                    assert forall|off: int, len: int|
                        #[trigger] maximal_empty_run(v, off, len) && off < b + 1 implies exists|
                        k: int,
                    |
                        0 <= k < idx@.len() && #[trigger] idx@[k] == ((len as u64), (
                        off as u64)) by {
                        if off == run_start as int {
                            assert(len == rlen as int) by {
                                if len < rlen as int {
                                    assert(tag(v, off + len) != 0);
                                    assert(tag(v, off + len) == 0);
                                }
                                if len > rlen as int {
                                    assert(tag(v, run_start as int + rlen as int) == 0);
                                    assert(tag(v, b as int) != 0);
                                }
                            }
                            assert(idx@[p] == ((len as u64), (off as u64)));
                        } else if off < b {
                            assert(exists|k: int|
                                0 <= k < idx0.len() && #[trigger] idx0[k] == ((len as u64), (
                                off as u64)));
                            let k0 = choose|k: int|
                                0 <= k < idx0.len() && #[trigger] idx0[k] == ((len as u64), (
                                off as u64));
                            if k0 < p {
                                assert(idx0[k0] == idx@[k0]);
                            } else {
                                assert(idx0[k0] == idx@[k0 + 1]);
                            }
                        } else {
                            assert(off == b as int);
                            assert(tag(v, off) == 0);
                            assert(false);
                        }
                    }
                }
                in_run = false;
            }
        }
        b = b + 1;
    }
    if in_run {
        let ghost idx0 = idx@;
        let rlen: u64 = (nb - run_start) as u64;
        proof {
            assert(maximal_empty_run(v, run_start as int, rlen as int));
            assert forall|jj: int|
                0 <= jj < idx0.len() implies crate::index::runs_disjoint_pair(
                rlen,
                run_start as u64,
                (#[trigger] idx0[jj]).0,
                idx0[jj].1,
            ) by {
                assert(idx0[jj].1 + idx0[jj].0 <= run_start);
            }
        }
        idx.release(run_start as u64, rlen);
        proof {
            crate::index::lemma_release_wf(idx0, run_start as u64, rlen);
            crate::index::lemma_release_pos_props(idx0, rlen);
            let p = crate::index::release_pos(idx0, rlen);
            assert forall|k: int|
                0 <= k < idx@.len() implies maximal_empty_run(
                v,
                (#[trigger] idx@[k]).1 as int,
                idx@[k].0 as int,
            ) by {
                if k == p {
                    assert(idx@[k] == (rlen, run_start as u64));
                } else if k < p {
                    assert(idx0[k] == idx@[k]);
                } else {
                    assert(idx0[k - 1] == idx@[(k - 1) + 1]);
                }
            }
            assert forall|off: int, len: int|
                #[trigger] maximal_empty_run(v, off, len) implies exists|k: int|
                0 <= k < idx@.len() && #[trigger] idx@[k] == ((len as u64), (off as u64)) by {
                if off == run_start as int {
                    assert(len == rlen as int) by {
                        if len < rlen as int {
                            assert(tag(v, off + len) != 0);
                            assert(tag(v, off + len) == 0);
                        }
                        if len > rlen as int {
                            assert(off + len <= nb);
                            assert(off + rlen as int == nb);
                        }
                    }
                    assert(idx@[p] == ((len as u64), (off as u64)));
                } else if off < run_start as int {
                    assert(exists|k: int|
                        0 <= k < idx0.len() && #[trigger] idx0[k] == ((len as u64), (
                        off as u64)));
                    let k0 = choose|k: int|
                        0 <= k < idx0.len() && #[trigger] idx0[k] == ((len as u64), (off as u64));
                    if k0 < p {
                        assert(idx0[k0] == idx@[k0]);
                    } else {
                        assert(idx0[k0] == idx@[k0 + 1]);
                    }
                } else {
                    assert(off > run_start as int);
                    assert(off + len <= nb && len >= 1);
                    assert(run_start as int <= off - 1 < nb);
                    assert(tag(v, off - 1) == 0);
                    assert(off == 0 || tag(v, off - 1) != 0);
                    assert(false);
                }
            }
        }
    } else {
        proof {
            assert forall|off: int, len: int|
                #[trigger] maximal_empty_run(v, off, len) implies exists|k: int|
                0 <= k < idx@.len() && #[trigger] idx@[k] == ((len as u64), (off as u64)) by {
                assert(off + len <= nb && len >= 1);
                assert(off < nb);
            }
        }
    }
    idx
}

/// A byte record store bound to one flat block image.
pub struct Cabide {
    /// The file image: always an exact multiple of `BLOCK_SIZE` bytes.
    data: Vec<u8>,
    /// Number of the first block not covered by previously written or
    /// pre-allocated content; allocation falls back here when no free run
    /// fits.
    next_block: u64,
    /// Free contiguous runs in the middle of the image, indexed by length.
    empty_blocks: FreeIndex,
}

impl Cabide {
    /// The byte image the store works on.
    pub closed spec fn image(&self) -> Seq<u8> {
        self.data@
    }

    /// The append cursor.
    pub closed spec fn cursor(&self) -> int {
        self.next_block as int
    }

    /// The free runs, as `(length, starting block)` pairs sorted by length.
    pub closed spec fn free_runs(&self) -> Seq<(u64, u64)> {
        self.empty_blocks@
    }

    /// Number of blocks of the image.
    pub open spec fn nblocks(&self) -> int {
        num_blocks(self.image())
    }

    /// The store's internal consistency: the image is whole blocks; the
    /// cursor sits within it; the free-run index is consistent, and each
    /// indexed run lies below the cursor and covers only `Empty` blocks;
    /// everything at or after the cursor is `Empty`; and no `Continuation`
    /// block follows an `Empty` one.
    pub open spec fn wf(&self) -> bool {
        &&& self.image().len() as int % 30 == 0
        &&& 0 <= self.cursor() <= self.nblocks()
        &&& index_wf(self.free_runs())
        &&& forall|k: int|
            0 <= k < self.free_runs().len() ==> (#[trigger] self.free_runs()[k]).1
                + self.free_runs()[k].0 <= self.cursor()
        &&& forall|k: int, b: int|
            #![trigger self.free_runs()[k], tag(self.image(), b)]
            0 <= k < self.free_runs().len() && self.free_runs()[k].1 <= b < self.free_runs()[k].1
                + self.free_runs()[k].0 ==> tag(self.image(), b) == 0
        &&& forall|b: int|
            self.cursor() <= b < self.nblocks() ==> #[trigger] tag(self.image(), b) == 0
        &&& well_framed(self.image())
    }

    /// Bind a store to an existing image, rebuilding the free-run index and
    /// the append cursor by one recovery scan over its blocks. The image is
    /// first brought to whole blocks by zero-filling; if `blocks` asks for
    /// more blocks than the image has, it is extended by zero-filling (a
    /// request below the current size changes nothing — the store never
    /// shrinks). The index ends up holding exactly the maximal `Empty` runs
    /// of the scanned image, and the cursor sits at its end.
    #[verifier::loop_isolation(false)]
    #[verifier::rlimit(100)]
    pub fn new(image: Vec<u8>, blocks: Option<u64>) -> (r: Cabide)
        requires
            well_framed(pad_blocks(image@)),
            blocks matches Some(bl) ==> (bl as int) * 30 <= usize::MAX as int,
        ensures
            r.wf(),
            r.cursor() == num_blocks(pad_blocks(image@)),
            r.image().len() == (match blocks {
                Some(bl) => if (bl as int) * 30 >= pad_blocks(image@).len() {
                    (bl as int) * 30
                } else {
                    pad_blocks(image@).len() as int
                },
                None => pad_blocks(image@).len() as int,
            }),
            // bit-exact: the scan changes nothing, and pre-filling only
            // appends zero bytes
            forall|j: int|
                0 <= j < pad_blocks(image@).len() ==> #[trigger] r.image()[j] == pad_blocks(
                    image@,
                )[j],
            forall|j: int|
                pad_blocks(image@).len() <= j < r.image().len() ==> #[trigger] r.image()[j] == 0,
            forall|b: int|
                0 <= b ==> #[trigger] read_result(r.image(), b) == read_result(
                    pad_blocks(image@),
                    b,
                ),
            forall|k: int|
                0 <= k < r.free_runs().len() ==> maximal_empty_run(
                    pad_blocks(image@),
                    (#[trigger] r.free_runs()[k]).1 as int,
                    r.free_runs()[k].0 as int,
                ),
            forall|off: int, len: int|
                #[trigger] maximal_empty_run(pad_blocks(image@), off, len) ==> exists|k: int|
                    0 <= k < r.free_runs().len() && #[trigger] r.free_runs()[k] == (
                        (len as u64),
                        (off as u64),
                    ),
    {
        let mut data = image;
        pad_image(&mut data);
        let ghost v = data@;
        let idx = scan_free_runs(&data);
        let dlen = data.len();
        let nb = dlen / BLOCK_SIZE;
        proof {
            assert(nb * 30 == dlen);
            assert(nb == num_blocks(v));
        }
        let next_block = nb as u64;
        // honor a requested minimum block count (pre-fill, never shrink)
        match blocks {
            Some(bl) => {
                let target = (bl as usize) * 30;
                extend_zeros(&mut data, target);
            },
            None => {},
        }
        proof {
            crate::protocol::lemma_extend_effect(v, data@);
        }
        let r = Cabide { data, next_block, empty_blocks: idx };
        proof {
            assert forall|k: int, bb: int|
                #![trigger r.free_runs()[k], tag(r.image(), bb)]
                0 <= k < r.free_runs().len() && r.free_runs()[k].1 <= bb < r.free_runs()[k].1
                    + r.free_runs()[k].0 implies tag(r.image(), bb) == 0 by {
                assert(maximal_empty_run(v, r.free_runs()[k].1 as int, r.free_runs()[k].0 as int));
                assert(tag(v, bb) == 0);
                assert(tag(r.image(), bb) == tag(v, bb));
            }
            assert forall|k: int|
                0 <= k < r.free_runs().len() implies (#[trigger] r.free_runs()[k]).1
                + r.free_runs()[k].0 <= r.cursor() by {
                assert(maximal_empty_run(v, r.free_runs()[k].1 as int, r.free_runs()[k].0 as int));
            }
            assert forall|bb: int|
                r.cursor() <= bb < r.nblocks() implies #[trigger] tag(r.image(), bb) == 0 by {
                assert(tag(r.image(), bb) == tag(v, bb));
                if bb >= num_blocks(v) {
                    assert(tag(v, bb) == 0);
                }
            }
            assert(well_framed(r.image())) by {
                assert forall|bb: int|
                    0 <= bb && bb + 1 < r.nblocks() && tag(r.image(), bb) == 0
                        implies #[trigger] tag(r.image(), bb + 1) != 2 by {
                    assert(tag(r.image(), bb + 1) == tag(v, bb + 1));
                    assert(tag(r.image(), bb) == tag(v, bb));
                    if bb + 1 < num_blocks(v) {
                        assert(tag(v, bb + 1) != 2);
                    } else {
                        assert(tag(v, bb + 1) == 0);
                    }
                }
            }
            assert(r.wf());
        }
        r
    }

    /// Current number of blocks of the image, free ones included.
    pub fn blocks(&self) -> (r: u64)
        requires
            self.wf(),
        ensures
            r == self.nblocks(),
            r * 30 <= usize::MAX,
    {
        let dlen = self.data.len();
        proof {
            assert(self.nblocks() * 30 <= dlen);
        }
        (dlen / BLOCK_SIZE) as u64
    }

    /// Empty the store: no blocks, no free runs, cursor at the start.
    pub fn truncate(&mut self)
        ensures
            final(self).wf(),
            final(self).image() == Seq::<u8>::empty(),
            final(self).nblocks() == 0,
            final(self).cursor() == 0,
            final(self).free_runs() == Seq::<(u64, u64)>::empty(),
    {
        self.data = Vec::new();
        self.next_block = 0;
        self.empty_blocks = FreeIndex::new();
        assert(self.data@ =~= Seq::<u8>::empty());
    }

    /// Frame `raw` and place it in the store: in the most recently freed of
    /// the shortest free runs that fit it, or at the append cursor if none
    /// does. Returns the record's starting block number, its handle. The new
    /// record occupies exactly the contiguous blocks
    /// `[handle, handle + needed_blocks)`; no other block's content changes.
    #[verifier::loop_isolation(false)]
    #[verifier::rlimit(100)]
    pub fn write(&mut self, raw: &Vec<u8>) -> (r: u64)
        requires
            old(self).wf(),
            raw@.len() >= 1,
            // the machine limit binds only when no free run serves the
            // write and the image must grow
            alloc_hit(old(self).free_runs(), needed_blocks(raw@.len() as int) as u64) || (old(
                self,
            ).nblocks() + needed_blocks(raw@.len() as int)) * 30 <= usize::MAX as int,
        ensures
            final(self).wf(),
            final(self).nblocks() >= old(self).nblocks(),
            ({
                let n = needed_blocks(raw@.len() as int);
                let nu = n as u64;
                let runs = old(self).free_runs();
                &&& (alloc_hit(runs, nu) ==> r == spec_alloc_off(runs, nu) && final(self).free_runs() == spec_alloc_state(runs, nu) && final(self).cursor() == old(
                    self,
                ).cursor() && final(self).nblocks() == old(self).nblocks())
                &&& (!alloc_hit(runs, nu) ==> r == old(self).cursor() && final(self).free_runs()
                    == runs && final(self).cursor() == old(self).cursor() + n && final(self).nblocks() == (if old(self).nblocks() >= r + n {
                    old(self).nblocks() as int
                } else {
                    r + n
                }))
                &&& r + n <= final(self).nblocks()
                &&& read_result(final(self).image(), r as int) == Ok::<Seq<u8>, Error>(
                    strip_payload(padded(raw@)),
                )
                &&& (round_trips(raw@) ==> read_result(final(self).image(), r as int) == Ok::<
                    Seq<u8>,
                    Error,
                >(raw@))
                &&& (forall|b: int|
                    r < b < r + n ==> #[trigger] read_result(final(self).image(), b) == Err::<
                        Seq<u8>,
                        Error,
                    >(Error::ContinuationBlock))
                &&& (forall|b: int|
                    0 <= b && !(r <= b < r + n) ==> #[trigger] read_result(final(self).image(), b)
                        == read_result(old(self).image(), b))
                &&& (forall|b: int|
                    r <= b < r + n ==> #[trigger] read_result(old(self).image(), b) == Err::<
                        Seq<u8>,
                        Error,
                    >(Error::EmptyBlock))
                // the image changes bit-exactly: the record's run holds its
                // framed bytes, any extension is zero-filled, and no other
                // byte moves
                &&& final(self).image().len() == (if (r + n) * 30 > old(self).image().len() {
                    (r + n) * 30
                } else {
                    old(self).image().len() as int
                })
                &&& (forall|j: int|
                    0 <= j < old(self).image().len() && !(r * 30 <= j < (r + n) * 30)
                        ==> #[trigger] final(self).image()[j] == old(self).image()[j])
                &&& (forall|bb: int, o: int|
                    0 <= bb < n && 0 <= o < 30 ==> final(self).image()[(r + bb) * 30 + o]
                        == #[trigger] frame_at(raw@, bb, o))
            }),
    {
        let l = raw.len();
        let n_us: usize = (l - 1) / 28 + 1;
        let ghost n_int = needed_blocks(raw@.len() as int);
        proof {
            assert(n_us == n_int);
            assert(1 <= n_int);
            assert(raw@.len() <= n_int * 28);
        }
        let n: u64 = n_us as u64;
        let _image_len = self.data.len();
        let ghost v0 = self.image();
        let ghost runs0 = self.free_runs();
        let ghost cur0 = self.cursor();
        let ghost nb0 = self.nblocks();
        proof {
            assert(nb0 * 30 == v0.len());
            if alloc_hit(runs0, n) {
                crate::index::lemma_alloc_wf(runs0, n);
            }
        }
        let got = self.empty_blocks.allocate(n);
        let s: u64 = match got {
            Some(off) => off,
            None => {
                let c = self.next_block;
                self.next_block = c + n;
                c
            },
        };
        let ghost c = crate::index::alloc_pos(runs0, n);
        proof {
            // the chosen region is all empty and within bounds
            if alloc_hit(runs0, n) {
                assert(s == runs0[c].1 && runs0[c].0 >= n);
                assert(runs0[c].1 + runs0[c].0 <= cur0);
                assert(s + n <= cur0 <= nb0);
                assert forall|b: int| s <= b < s + n_int implies #[trigger] tag(v0, b) == 0 by {
                    assert(runs0[c].1 <= b < runs0[c].1 + runs0[c].0);
                }
            } else {
                assert(s == cur0 <= nb0);
                assert forall|b: int| s <= b < s + n_int implies #[trigger] tag(v0, b) == 0 by {
                    if b < nb0 {
                        assert(cur0 <= b < nb0);
                    }
                }
            }
            assert((s + n_int) * 30 <= usize::MAX as int) by {
                if alloc_hit(runs0, n) {
                    assert(s + n_int <= nb0);
                    assert(nb0 * 30 == v0.len());
                    assert(v0.len() <= usize::MAX);
                } else {
                    assert(s + n_int <= nb0 + n_int);
                    assert((nb0 + n_int) * 30 <= usize::MAX as int);
                }
            }
        }
        let s_us = s as usize;
        let target: usize = (s_us + n_us) * 30;
        let ghost cur1 = self.next_block;
        let ghost idx1 = self.empty_blocks;
        if self.data.len() < target {
            proof {
                assert(self.image().subrange(0, v0.len() as int) =~= v0);
            }
            while self.data.len() < target
                invariant
                    v0.len() <= self.image().len() <= target,
                    self.image().subrange(0, v0.len() as int) == v0,
                    forall|jj: int|
                        v0.len() <= jj < self.image().len() ==> #[trigger] self.image()[jj] == 0,
                    self.next_block == cur1,
                    self.empty_blocks == idx1,
                decreases target - self.data.len(),
            {
                self.data.push(0);
                proof {
                    assert(self.image().subrange(0, v0.len() as int) =~= v0);
                }
            }
        }
        let ghost vm = self.image();
        proof {
            assert forall|jj: int| 0 <= jj < v0.len() implies #[trigger] vm[jj] == v0[jj] by {
                if vm.len() != v0.len() {
                    assert(vm.subrange(0, v0.len() as int)[jj] == vm[jj]);
                }
            }
            assert(vm.len() == if v0.len() >= target {
                v0.len() as int
            } else {
                target as int
            });
        }
        // build the frame bytes of the record
        let mut fb: Vec<u8> = Vec::new();
        let mut i: usize = 0;
        while i < n_us
            invariant
                0 <= i <= n_us,
                n_us == n_int,
                1 <= n_int,
                raw@.len() == l,
                1 <= l,
                l <= n_int * 28,
                n_int * 30 <= usize::MAX as int,
                fb@.len() == i * 30,
                forall|b: int, o: int|
                    0 <= b < i && 0 <= o < 30 ==> fb@[b * 30 + o] == #[trigger] frame_at(
                        raw@,
                        b,
                        o,
                    ),
            decreases n_us - i,
        {
            let ghost fb0 = fb@;
            if i == 0 {
                fb.push(1);
            } else {
                fb.push(2);
            }
            let cs = i * 28;
            proof {
                vstd::arithmetic::div_mod::lemma_fundamental_div_mod(l as int - 1, 28);
                assert(28 * ((l as int - 1) / 28) <= l as int - 1);
                assert(n_int - 1 == (l as int - 1) / 28);
                assert(i <= n_int - 1);
                assert(i * 28 <= (n_int - 1) * 28);
                assert((n_int - 1) * 28 == 28 * ((l as int - 1) / 28));
                assert(cs <= l - 1);
            }
            let cl = if l - cs < 28 {
                l - cs
            } else {
                28
            };
            proof {
                assert(1 <= cl <= 28);
            }
            let mut o: usize = 0;
            while o < cl
                invariant
                    0 <= o <= cl,
                    cs == i * 28,
                    cs + cl <= l,
                    raw@.len() == l,
                    fb@.len() == i * 30 + 1 + o,
                    fb@.subrange(0, fb0.len() as int) == fb0,
                    forall|oo: int| 0 <= oo < o ==> #[trigger] fb@[i * 30 + 1 + oo] == raw@[cs + oo],
                    fb@[i * 30] == (if i == 0 {
                        1u8
                    } else {
                        2u8
                    }),
                decreases cl - o,
            {
                fb.push(raw[cs + o]);
                o = o + 1;
                proof {
                    assert(fb@.subrange(0, fb0.len() as int) =~= fb0);
                }
            }
            fb.push(END_BYTE);
            let mut p: usize = cl + 2;
            while p < 30
                invariant
                    cl + 2 <= p <= 30,
                    cs == i * 28,
                    cs + cl <= l,
                    raw@.len() == l,
                    1 <= cl <= 28,
                    fb@.len() == i * 30 + p,
                    fb@.subrange(0, fb0.len() as int) == fb0,
                    forall|oo: int| 0 <= oo < cl ==> #[trigger] fb@[i * 30 + 1 + oo] == raw@[cs + oo],
                    fb@[i * 30] == (if i == 0 {
                        1u8
                    } else {
                        2u8
                    }),
                    fb@[i * 30 + 1 + cl] == END_BYTE,
                    forall|oo: int| cl + 2 <= oo < p ==> #[trigger] fb@[i * 30 + oo] == 0u8,
                decreases 30 - p,
            {
                fb.push(0);
                proof {
                    assert(fb@.subrange(0, fb0.len() as int) =~= fb0);
                }
                p = p + 1;
            }
            proof {
                assert(fb@.subrange(0, fb0.len() as int) =~= fb0);
                assert forall|b: int, o2: int|
                    0 <= b < i + 1 && 0 <= o2 < 30 implies fb@[b * 30 + o2] == #[trigger] frame_at(
                    raw@,
                    b,
                    o2,
                ) by {
                    if b < i {
                        assert(fb0[b * 30 + o2] == frame_at(raw@, b, o2));
                        assert(fb@.subrange(0, fb0.len() as int)[b * 30 + o2] == fb0[b * 30 + o2]);
                    } else {
                        let chunk_len_spec: int = if raw@.len() - b * 28 < 28 {
                            raw@.len() - b * 28
                        } else {
                            28
                        };
                        assert(chunk_len_spec == cl) by {
                            vstd::arithmetic::div_mod::lemma_fundamental_div_mod(l as int - 1, 28);
                            assert(n_int - 1 == (l as int - 1) / 28);
                            if i < n_int - 1 {
                                assert((i + 1) * 28 <= (n_int - 1) * 28);
                                assert((n_int - 1) * 28 == 28 * ((l as int - 1) / 28));
                                assert(28 * ((l as int - 1) / 28) <= l as int - 1);
                            } else {
                                assert(i == n_int - 1);
                                assert(l as int - 1 < 28 * ((l as int - 1) / 28) + 28);
                            }
                        }
                        if o2 == 0 {
                        } else if o2 - 1 < cl {
                            assert(fb@[i * 30 + 1 + (o2 - 1)] == raw@[cs + (o2 - 1)]);
                        } else if o2 - 1 == cl {
                        } else {
                            assert(fb@[i * 30 + o2] == 0u8);
                        }
                    }
                }
            }
            i = i + 1;
        }
        // copy the frame into the image
        let mut j: usize = 0;
        let total = n_us * 30;
        while j < total
            invariant
                0 <= j <= total,
                total == n_us * 30,
                n_us == n_int,
                s_us == s,
                fb@.len() == total,
                s_us * 30 + total <= self.image().len(),
                self.image().len() == vm.len(),
                self.image().len() <= usize::MAX,
                forall|jj: int|
                    0 <= jj < vm.len() && !(s_us * 30 <= jj < s_us * 30 + j)
                        ==> #[trigger] self.image()[jj] == vm[jj],
                forall|jj: int| 0 <= jj < j ==> #[trigger] self.image()[s_us * 30 + jj] == fb@[jj],
                self.next_block == cur1,
                self.empty_blocks == idx1,
            decreases total - j,
        {
            self.data.set(s_us * 30 + j, fb[j]);
            j = j + 1;
        }
        proof {
            let vf = self.image();
            assert(vf.len() as int % 30 == 0) by {
                assert(vm.len() as int % 30 == 0);
            }
            assert forall|b: int, o: int|
                0 <= b < n_int && 0 <= o < 30 implies vf[(s + b) * 30 + o] == #[trigger] frame_at(
                raw@,
                b,
                o,
            ) by {
                assert((s as int + b) * 30 + o == s as int * 30 + (b * 30 + o));
                assert(vf[s as int * 30 + (b * 30 + o)] == fb@[b * 30 + o]);
            }
            assert forall|jj: int|
                0 <= jj < v0.len() && !(s * 30 <= jj < (s + n_int) * 30) implies #[trigger] vf[jj]
                == v0[jj] by {
                assert((s as int + n_int) * 30 == s as int * 30 + n_int * 30);
                assert(vf[jj] == vm[jj]);
            }
            assert(vf.len() == if v0.len() >= (s + n_int) * 30 {
                v0.len() as int
            } else {
                (s + n_int) * 30
            }) by {
                assert((s as int + n_int) * 30 == target);
            }
            lemma_frame_effect(v0, vf, s as int, raw@);
            lemma_strip_padded(raw@);
            // the store is consistent again
            let curF = self.cursor();
            let runsF = self.free_runs();
            let nbF = num_blocks(vf);
            let hit = alloc_hit(runs0, n);
            if hit {
                assert(s + n_int <= cur0 <= nb0);
                assert((s + n_int) * 30 <= nb0 * 30);
                assert(vf.len() == v0.len() && nbF == nb0);
                assert(curF == cur0);
            } else {
                assert(curF == cur0 + n_int && s == cur0);
                assert(nbF == if nb0 >= s + n_int {
                    nb0
                } else {
                    s as int + n_int
                });
                assert(curF <= nbF);
            }
            assert forall|k: int| 0 <= k < runsF.len() implies (#[trigger] runsF[k]).1 + runsF[k].0
                <= curF by {
                if hit {
                    assert(runsF[k] == spec_alloc_state(runs0, n)[k]);
                    if runs0[c].0 > n && runsF[k] == (((runs0[c].0 - n) as u64), ((runs0[c].1
                        + n) as u64)) {
                        assert(runs0[c].1 + runs0[c].0 <= cur0);
                    } else {
                        let i = choose|i: int|
                            0 <= i < runs0.len() && i != c && runsF[k] == runs0[i];
                        assert(runs0[i].1 + runs0[i].0 <= cur0);
                    }
                } else {
                    assert(runsF[k] == runs0[k]);
                    assert(runs0[k].1 + runs0[k].0 <= cur0);
                }
            }
            assert forall|k: int, b: int|
                #![trigger runsF[k], tag(vf, b)]
                0 <= k < runsF.len() && runsF[k].1 <= b < runsF[k].1 + runsF[k].0 implies tag(
                vf,
                b,
            ) == 0 by {
                if hit {
                    assert(runsF[k] == spec_alloc_state(runs0, n)[k]);
                    if runs0[c].0 > n && runsF[k] == (((runs0[c].0 - n) as u64), ((runs0[c].1
                        + n) as u64)) {
                        assert(runs0[c].1 <= b < runs0[c].1 + runs0[c].0);
                        assert(tag(v0, b) == 0);
                        assert(b >= s + n_int);
                        assert(tag(vf, b) == tag(v0, b));
                    } else {
                        let i = choose|i: int|
                            0 <= i < runs0.len() && i != c && runsF[k] == runs0[i];
                        assert(runs0[i].1 <= b < runs0[i].1 + runs0[i].0);
                        assert(tag(v0, b) == 0);
                        assert(crate::index::runs_disjoint_pair(
                            runs0[i].0,
                            runs0[i].1,
                            runs0[c].0,
                            runs0[c].1,
                        ));
                        assert(!(s <= b < s + n_int));
                        assert(tag(vf, b) == tag(v0, b));
                    }
                } else {
                    assert(runsF[k] == runs0[k]);
                    assert(runs0[k].1 <= b < runs0[k].1 + runs0[k].0);
                    assert(tag(v0, b) == 0);
                    assert(runs0[k].1 + runs0[k].0 <= cur0);
                    assert(!(s <= b < s + n_int));
                    assert(tag(vf, b) == tag(v0, b));
                }
            }
            assert forall|b: int| curF <= b < nbF implies #[trigger] tag(vf, b) == 0 by {
                assert(!(s <= b < s + n_int));
                assert(tag(vf, b) == tag(v0, b));
                if b < nb0 {
                    assert(cur0 <= b);
                    assert(tag(v0, b) == 0);
                } else {
                    assert(tag(v0, b) == 0);
                }
            }
            assert(self.wf());
            assert(n == n_int as u64);
        }
        s
    }

    /// Remove the record starting at block `block` and return its payload:
    /// its blocks are marked `Empty` and its run becomes eligible for reuse
    /// by later writes. Fails like `read` on a block that holds no record
    /// head, leaving the store untouched.
    #[verifier::loop_isolation(false)]
    #[verifier::rlimit(100)]
    pub fn remove(&mut self, block: u64) -> (r: Result<Vec<u8>, Error>)
        requires
            old(self).wf(),
        ensures
            final(self).wf(),
            res_view(r) == read_result(old(self).image(), block as int),
            final(self).nblocks() == old(self).nblocks(),
            r is Err ==> final(self).image() == old(self).image() && final(self).cursor() == old(
                self,
            ).cursor() && final(self).free_runs() == old(self).free_runs(),
            r is Ok ==> ({
                let e = run_end(old(self).image(), block as int);
                &&& block < e <= old(self).nblocks()
                &&& final(self).cursor() == old(self).cursor()
                &&& final(self).free_runs() == spec_release(
                    old(self).free_runs(),
                    block,
                    (e - block) as u64,
                )
                // bit-exact: only the tag bytes of the freed run are
                // overwritten (to `Empty`); every other byte stays
                &&& final(self).image().len() == old(self).image().len()
                &&& (forall|j: int|
                    0 <= j < old(self).image().len() && !(block * 30 <= j < e * 30 && j % 30 == 0)
                        ==> #[trigger] final(self).image()[j] == old(self).image()[j])
                &&& (forall|bb: int|
                    block <= bb < e ==> #[trigger] final(self).image()[bb * 30] == 0)
                &&& (forall|b: int|
                    block <= b < e ==> #[trigger] read_result(final(self).image(), b) == Err::<
                        Seq<u8>,
                        Error,
                    >(Error::EmptyBlock))
                &&& (forall|b: int|
                    0 <= b && !(block <= b < e) ==> #[trigger] read_result(final(self).image(), b)
                        == read_result(old(self).image(), b))
            }),
    {
        let rr = self.read(block);
        match rr {
            Err(err) => Err(err),
            Ok(payload) => {
                let ghost v0 = self.image();
                let ghost runs0 = self.free_runs();
                let ghost cur0 = self.cursor();
                let dlen = self.data.len();
                let nb = dlen / BLOCK_SIZE;
                proof {
                    assert(tag(v0, block as int) == 1);
                    assert((block as int) < nb);
                    lemma_run_end_props(v0, block as int);
                }
                let bi = block as usize;
                self.data.set(bi * 30, 0);
                let mut e: usize = bi + 1;
                while e < nb && self.data[e * 30] == 2
                    invariant
                        bi < e <= nb,
                        self.image().len() == v0.len(),
                        forall|j: int|
                            0 <= j < v0.len() && !(bi * 30 <= j < e * 30 && j % 30 == 0)
                                ==> #[trigger] self.image()[j] == v0[j],
                        forall|b: int| bi <= b < e ==> #[trigger] tag(self.image(), b) == 0,
                        forall|jj: int| bi < jj < e ==> #[trigger] tag(v0, jj) == 2,
                        self.next_block == old(self).next_block,
                        self.empty_blocks == old(self).empty_blocks,
                    decreases nb - e,
                {
                    proof {
                        assert(self.image()[e * 30] == v0[e * 30]) by {
                            assert(!(bi * 30 <= e * 30 < e * 30));
                        }
                        assert(tag(v0, e as int) == 2);
                    }
                    let ghost vprev = self.image();
                    self.data.set(e * 30, 0);
                    proof {
                        assert forall|b: int|
                            bi <= b < e + 1 implies #[trigger] tag(self.image(), b) == 0 by {
                            if b < e {
                                assert(tag(vprev, b) == 0);
                                assert(self.image()[b * 30] == vprev[b * 30]);
                            } else {
                                assert(self.image()[b * 30] == 0);
                            }
                        }
                        assert forall|j: int|
                            0 <= j < v0.len() && !(bi * 30 <= j < (e + 1) * 30 && j % 30 == 0)
                                implies #[trigger] self.image()[j] == v0[j] by {
                            assert(j != e * 30);
                            assert(vprev[j] == v0[j]);
                        }
                    }
                    e = e + 1;
                }
                proof {
                    assert(self.image()[e * 30] == v0[e * 30] || e == nb) by {
                        if e < nb {
                            assert(!(bi * 30 <= e * 30 < e * 30));
                        }
                    }
                    assert(e == nb || tag(v0, e as int) != 2);
                    lemma_run_end_at(v0, bi as int, e as int);
                    assert(run_end(v0, block as int) == e);
                }
                let rlen: u64 = (e - bi) as u64;
                proof {
                    // the freed run lies below the cursor and meets no
                    // indexed run: its blocks were record blocks, theirs are
                    // empty
                    assert forall|b: int| bi <= b < e implies #[trigger] tag(v0, b) != 0 by {
                        if b == bi {
                            assert(tag(v0, b) == 1);
                        } else {
                            assert(tag(v0, b) == 2);
                        }
                    }
                    assert(e <= cur0) by {
                        assert(tag(v0, e - 1) != 0);
                        if e - 1 >= cur0 {
                            assert(tag(v0, e - 1) == 0);
                        }
                    }
                    assert forall|jj: int|
                        0 <= jj < runs0.len() implies crate::index::runs_disjoint_pair(
                        rlen,
                        block,
                        (#[trigger] runs0[jj]).0,
                        runs0[jj].1,
                    ) by {
                        if !crate::index::runs_disjoint_pair(
                            rlen,
                            block,
                            runs0[jj].0,
                            runs0[jj].1,
                        ) {
                            let c = if block as int >= runs0[jj].1 {
                                block as int
                            } else {
                                runs0[jj].1 as int
                            };
                            assert(bi <= c < e && runs0[jj].1 <= c < runs0[jj].1 + runs0[jj].0);
                            assert(tag(v0, c) != 0);
                            assert(tag(v0, c) == 0);
                        }
                    }
                }
                self.empty_blocks.release(block, rlen);
                proof {
                    let vf = self.image();
                    assert forall|j: int|
                        0 <= j < vf.len() && !(bi * 30 <= j < e * 30 && j % 30 == 0)
                            implies #[trigger] vf[j] == v0[j] by {}
                    crate::protocol::lemma_unframe_effect(v0, vf, bi as int, e as int);
                    // the invariant holds again
                    let runsF = self.free_runs();
                    crate::index::lemma_release_wf(runs0, block, rlen);
                    crate::index::lemma_release_pos_props(runs0, rlen);
                    let p = crate::index::release_pos(runs0, rlen);
                    assert(runsF == crate::index::spec_release(runs0, block, rlen));
                    assert(runsF.len() == runs0.len() + 1);
                    assert(runsF[p] == (rlen, block));
                    assert forall|k: int|
                        0 <= k < runsF.len() implies (#[trigger] runsF[k]).1 + runsF[k].0
                        <= cur0 by {
                        if k == p {
                            assert(runsF[k] == (rlen, block));
                        } else if k < p {
                            assert(runs0[k] == runsF[k]);
                        } else {
                            assert(runs0[k - 1] == runsF[(k - 1) + 1]);
                        }
                    }
                    assert forall|k: int, b: int|
                        #![trigger runsF[k], tag(vf, b)]
                        0 <= k < runsF.len() && runsF[k].1 <= b < runsF[k].1 + runsF[k].0 implies
                        tag(vf, b) == 0 by {
                        if k == p {
                            assert(runsF[k] == (rlen, block));
                            assert(bi <= b < e);
                            assert(tag(vf, b) == 0);
                        } else {
                            let ko = if k < p {
                                k
                            } else {
                                k - 1
                            };
                            if k < p {
                                assert(runs0[k] == runsF[k]);
                            } else {
                                assert(runs0[k - 1] == runsF[(k - 1) + 1]);
                            }
                            assert(runsF[k] == runs0[ko]);
                            assert(runs0[ko].1 <= b < runs0[ko].1 + runs0[ko].0);
                            assert(tag(v0, b) == 0);
                            assert(!(bi <= b < e)) by {
                                if bi <= b < e {
                                    assert(tag(v0, b) != 0);
                                }
                            }
                            assert(tag(vf, b) == tag(v0, b));
                        }
                    }
                    assert forall|b: int| cur0 <= b < num_blocks(vf) implies #[trigger] tag(vf, b)
                        == 0 by {
                        assert(!(bi <= b < e));
                        assert(tag(vf, b) == tag(v0, b));
                        assert(tag(v0, b) == 0);
                    }
                    assert(self.wf());
                    // the byte-exact clauses: only tag bytes of the freed
                    // run changed, and those are now zero
                    assert forall|j: int|
                        0 <= j < v0.len() && !(block * 30 <= j < e * 30 && j % 30 == 0)
                            implies #[trigger] self.image()[j] == v0[j] by {
                        assert(!(bi * 30 <= j < e * 30 && j % 30 == 0));
                    }
                    assert forall|bb: int|
                        block <= bb < e implies #[trigger] self.image()[bb * 30] == 0 by {
                        assert(read_result(vf, bb) == Err::<Seq<u8>, Error>(Error::EmptyBlock));
                        assert(tag(vf, bb) == 0);
                        assert(0 <= bb < num_blocks(vf));
                    }
                }
                Ok(payload)
            },
        }
    }

    /// Decode the record starting at block `block`, without changing the
    /// store. Fails with `EmptyBlock` on a free block and with
    /// `ContinuationBlock` in the middle of a record.
    pub fn read(&self, block: u64) -> (r: Result<Vec<u8>, Error>)
        requires
            self.wf(),
        ensures
            res_view(r) == read_result(self.image(), block as int),
    {
        let dlen = self.data.len();
        let nb = dlen / BLOCK_SIZE;
        proof {
            assert(self.data@.len() <= usize::MAX);
            assert(nb * 30 <= dlen);
        }
        if block >= nb as u64 {
            return Err(Error::EmptyBlock);
        }
        let bi = block as usize;
        proof {
            assert(bi * 30 + 29 < self.data@.len());
        }
        let t = self.data[bi * 30];
        if t == 0 {
            return Err(Error::EmptyBlock);
        }
        if t != 1 {
            return Err(Error::ContinuationBlock);
        }
        let ghost im = self.image();
        let mut content: Vec<u8> = Vec::new();
        let mut o: usize = 0;
        while o < 28
            invariant
                0 <= o <= 28,
                bi * 30 + 29 < self.data@.len(),
                self.data@.len() <= usize::MAX,
                im == self.image(),
                content@ == Seq::new(o as nat, |i: int| im[bi * 30 + 1 + i]),
            decreases 28 - o,
        {
            content.push(self.data[bi * 30 + 1 + o]);
            proof {
                assert(content@ =~= Seq::new((o + 1) as nat, |i: int| im[bi * 30 + 1 + i]));
            }
            o = o + 1;
        }
        proof {
            lemma_content_bytes_unfold(im, bi as int, bi as int + 1);
            assert(content_bytes(im, bi as int, bi as int) =~= Seq::<u8>::empty());
            assert(content@ =~= block_content(im, bi as int));
            assert(content@ =~= content_bytes(im, bi as int, bi as int + 1));
        }
        let mut b: usize = bi + 1;
        while b < nb && self.data[b * 30] == 2
            invariant
                self.wf(),
                im == self.image(),
                nb == self.nblocks(),
                bi < b <= nb,
                b * 30 <= self.data@.len(),
                self.data@.len() <= usize::MAX,
                content@ == content_bytes(im, bi as int, b as int),
                forall|j: int| bi < j < b ==> #[trigger] tag(im, j) == 2,
            decreases nb - b,
        {
            let mut o: usize = 0;
            while o < 28
                invariant
                    0 <= o <= 28,
                    b < self.nblocks(),
                    b * 30 + 29 < self.data@.len(),
                    self.data@.len() <= usize::MAX,
                    im == self.image(),
                    content@ == content_bytes(im, bi as int, b as int) + Seq::new(
                        o as nat,
                        |i: int| im[b * 30 + 1 + i],
                    ),
                decreases 28 - o,
            {
                content.push(self.data[b * 30 + 1 + o]);
                proof {
                    assert(content@ =~= content_bytes(im, bi as int, b as int) + Seq::new(
                        (o + 1) as nat,
                        |i: int| im[b * 30 + 1 + i],
                    ));
                }
                o = o + 1;
            }
            proof {
                lemma_content_bytes_unfold(im, bi as int, b as int + 1);
                assert(Seq::new(28, |i: int| im[b * 30 + 1 + i]) =~= block_content(im, b as int));
                assert(content@ =~= content_bytes(im, bi as int, b as int + 1));
            }
            b = b + 1;
        }
        proof {
            lemma_run_end_at(im, bi as int, b as int);
        }
        // strip trailing padding, then one end marker if present
        let ghost full = content@;
        while content.len() > 0 && content[content.len() - 1] == 0
            invariant
                strip_zeros(content@) == strip_zeros(full),
            decreases content.len(),
        {
            content.pop();
        }
        proof {
            assert(strip_zeros(content@) == content@);
        }
        if content.len() > 0 && content[content.len() - 1] == END_BYTE {
            content.pop();
            proof {
                assert(content@ =~= strip_zeros(full).drop_last());
            }
        }
        Ok(content)
    }

    /// Remove every record whose payload the predicate accepts, in
    /// ascending block order, and return the removed payloads. Each freed
    /// run becomes eligible for reuse; the store keeps exactly the records
    /// the predicate rejected, and nothing else leaves it.
    #[verifier::loop_isolation(false)]
    #[verifier::rlimit(100)]
    pub fn remove_with<F: Fn(&Vec<u8>) -> bool>(&mut self, f: F) -> (r: Vec<Vec<u8>>)
        requires
            old(self).wf(),
            forall|v: &Vec<u8>| #[trigger] call_requires(f, (v,)),
        ensures
            final(self).wf(),
            final(self).nblocks() == old(self).nblocks(),
            final(self).cursor() == old(self).cursor(),
            payloads(old(self).image()).to_multiset() == payloads(
                final(self).image(),
            ).to_multiset().add(views_of(r@).to_multiset()),
            forall|i: int|
                0 <= i < r@.len() ==> exists|av: Vec<u8>|
                    av@ == (#[trigger] views_of(r@)[i]) && call_ensures(f, (&av,), true),
            forall|i: int|
                0 <= i < records(final(self).image()).len() ==> exists|av: Vec<u8>|
                    av@ == (#[trigger] records(final(self).image())[i]).1 && call_ensures(
                        f,
                        (&av,),
                        false,
                    ),
            // the removed payloads follow ascending block offset: each was
            // the record at a strictly increasing handle of the old image
            exists|hs: Seq<u64>|
                {
                    &&& #[trigger] hs.len() == r@.len()
                    &&& (forall|i: int|
                        0 <= i < hs.len() ==> read_result(
                            old(self).image(),
                            (#[trigger] hs[i]) as int,
                        ) == Ok::<Seq<u8>, Error>(views_of(r@)[i]))
                    &&& (forall|i: int, j: int|
                        0 <= i < j < hs.len() ==> (#[trigger] hs[i]) < (#[trigger] hs[j]))
                },
    {
        let mut out: Vec<Vec<u8>> = Vec::new();
        let nb = self.blocks();
        proof {
            broadcast use group_to_multiset_ensures;

            assert(views_of(out@) =~= Seq::<Seq<u8>>::empty());
            assert(payloads(old(self).image()).to_multiset() =~= payloads(
                self.image(),
            ).to_multiset().add(views_of(out@).to_multiset()));
        }
        let mut b: u64 = 0;
        let ghost hs: Seq<u64> = Seq::empty();
        while b < nb
            invariant
                0 <= b <= nb,
                self.wf(),
                nb == self.nblocks(),
                self.cursor() == old(self).cursor(),
                hs.len() == out@.len(),
                forall|i: int|
                    0 <= i < hs.len() ==> read_result(old(self).image(), (#[trigger] hs[i]) as int)
                        == Ok::<Seq<u8>, Error>(views_of(out@)[i]),
                forall|i: int| 0 <= i < hs.len() ==> (#[trigger] hs[i]) < b,
                forall|i: int, j: int|
                    0 <= i < j < hs.len() ==> (#[trigger] hs[i]) < (#[trigger] hs[j]),
                forall|j: int|
                    b <= j ==> #[trigger] read_result(self.image(), j) == read_result(
                        old(self).image(),
                        j,
                    ) || (read_result(self.image(), j) is Err && read_result(
                        old(self).image(),
                        j,
                    ) is Err),
                payloads(old(self).image()).to_multiset() == payloads(
                    self.image(),
                ).to_multiset().add(views_of(out@).to_multiset()),
                forall|i: int|
                    0 <= i < out@.len() ==> exists|av: Vec<u8>|
                        av@ == (#[trigger] views_of(out@)[i]) && call_ensures(f, (&av,), true),
                forall|i: int|
                    0 <= i < records(self.image()).len() && (#[trigger] records(
                        self.image(),
                    )[i]).0 < b ==> exists|av: Vec<u8>|
                        av@ == records(self.image())[i].1 && call_ensures(f, (&av,), false),
            decreases nb - b,
        {
            let ghost im0 = self.image();
            let rr = self.read(b);
            match rr {
                Ok(data) => {
                    let hit = f(&data);
                    let ghost avw = data;
                    if hit {
                        let ghost out0 = out@;
                        let removed = self.remove(b);
                        match removed {
                            Ok(p) => {
                                proof {
                                    broadcast use group_to_multiset_ensures;

                                    let e = run_end(im0, b as int);
                                    lemma_run_end_props(im0, b as int);
                                    assert forall|j: int|
                                        b < j < e implies #[trigger] read_result(im0, j) is Err by {
                                        assert(tag(im0, j) == 2);
                                    }
                                    assert forall|j: int|
                                        b <= j < e implies #[trigger] read_result(
                                        self.image(),
                                        j,
                                    ) is Err by {
                                        assert(read_result(self.image(), j) == Err::<
                                            Seq<u8>,
                                            Error,
                                        >(Error::EmptyBlock));
                                    }
                                    lemma_payloads_after_remove(im0, self.image(), b, e);
                                    crate::protocol::lemma_records_remove_full(
                                        im0,
                                        self.image(),
                                        b,
                                        e,
                                    );
                                    let pos = records_upto(im0, b as int).len() as int;
                                    lemma_remove_to_multiset(payloads(im0), pos);
                                    assert(payloads(im0)[pos] == p@);
                                    assert(payloads(im0).contains(p@));
                                    assert(payloads(im0).to_multiset().count(p@) > 0);
                                    assert(views_of(out0).push(p@).to_multiset() =~= views_of(
                                        out0,
                                    ).to_multiset().insert(p@));
                                    assert(payloads(self.image()).to_multiset().add(
                                        views_of(out0).push(p@).to_multiset(),
                                    ) =~= payloads(im0).to_multiset().add(
                                        views_of(out0).to_multiset(),
                                    ));
                                    // surviving records keep their witnesses
                                    lemma_records_split(im0, b as int, num_blocks(im0));
                                    lemma_records_split(im0, b as int + 1, num_blocks(im0));
                                    lemma_records_upto_prefix(im0, b as int, b as int + 1);
                                    assert(records_upto(im0, b as int + 1).len() == pos + 1);
                                    assert forall|i: int|
                                        0 <= i < records(self.image()).len() && (
                                        #[trigger] records(self.image())[i]).0 < b + 1 implies
                                        exists|av: Vec<u8>|
                                        av@ == records(self.image())[i].1 && call_ensures(
                                            f,
                                            (&av,),
                                            false,
                                        ) by {
                                        let i0 = if i < pos {
                                            i
                                        } else {
                                            i + 1
                                        };
                                        assert(records(self.image())[i] == records(im0)[i0]);
                                        assert(records(im0)[i0].0 < b) by {
                                            if i0 > pos {
                                                assert(!(i0 < pos + 1));
                                                assert(records(im0)[i0].0 >= b + 1);
                                            }
                                        }
                                        assert(exists|av: Vec<u8>|
                                            av@ == (#[trigger] records(im0)[i0]).1 && call_ensures(
                                                f,
                                                (&av,),
                                                false,
                                            ));
                                    }
                                }
                                out.push(p);
                                proof {
                                    assert(views_of(out@) =~= views_of(out0).push(p@));
                                    assert forall|i: int|
                                        0 <= i < out@.len() implies exists|av: Vec<u8>|
                                        av@ == (#[trigger] views_of(out@)[i]) && call_ensures(
                                            f,
                                            (&av,),
                                            true,
                                        ) by {
                                        if i < out0.len() {
                                            assert(views_of(out@)[i] == views_of(out0)[i]);
                                        } else {
                                            assert(views_of(out@)[i] == avw@);
                                            assert(call_ensures(f, (&avw,), true));
                                        }
                                    }
                                    // the handle list grows by this block,
                                    // above every earlier one
                                    let ghost hs0 = hs;
                                    hs = hs.push(b);
                                    assert(read_result(old(self).image(), b as int) == Ok::<
                                        Seq<u8>,
                                        Error,
                                    >(p@));
                                    assert forall|i: int|
                                        0 <= i < hs.len() implies read_result(
                                        old(self).image(),
                                        (#[trigger] hs[i]) as int,
                                    ) == Ok::<Seq<u8>, Error>(views_of(out@)[i]) by {
                                        if i < hs0.len() {
                                            assert(hs[i] == hs0[i]);
                                            assert(views_of(out@)[i] == views_of(out0)[i]);
                                        } else {
                                            assert(hs[i] == b && views_of(out@)[i] == p@);
                                        }
                                    }
                                    // reads at later blocks are still the
                                    // entry-time reads, or free either way
                                    let e = run_end(im0, b as int);
                                    assert forall|j: int|
                                        b + 1 <= j implies #[trigger] read_result(self.image(), j)
                                        == read_result(old(self).image(), j) || (read_result(
                                        self.image(),
                                        j,
                                    ) is Err && read_result(old(self).image(), j) is Err) by {
                                        if b as int <= j < e {
                                            assert(read_result(self.image(), j) is Err);
                                            assert(read_result(im0, j) is Err);
                                            assert(read_result(old(self).image(), j) is Err
                                                || read_result(old(self).image(), j)
                                                == read_result(im0, j));
                                        } else {
                                            assert(read_result(self.image(), j) == read_result(
                                                im0,
                                                j,
                                            ));
                                        }
                                    }
                                }
                            },
                            Err(_) => {
                                proof {
                                    assert(false);
                                }
                            },
                        }
                    } else {
                        proof {
                            lemma_read_in_records(self.image(), b);
                            lemma_records_split(self.image(), b as int, num_blocks(im0));
                            lemma_records_split(self.image(), b as int + 1, num_blocks(im0));
                            lemma_records_upto_prefix(self.image(), b as int, b as int + 1);
                            let pos = records_upto(self.image(), b as int).len() as int;
                            assert(records_upto(self.image(), b as int + 1).len() == pos + 1);
                            assert forall|i: int|
                                0 <= i < records(self.image()).len() && (#[trigger] records(
                                self.image(),
                            )[i]).0 < b + 1 implies exists|av: Vec<u8>|
                                av@ == records(self.image())[i].1 && call_ensures(
                                    f,
                                    (&av,),
                                    false,
                                ) by {
                                if records(self.image())[i].0 < b {
                                } else {
                                    assert(i < pos + 1 && !(i < pos));
                                    assert(records(self.image())[i] == (b, avw@));
                                    assert(call_ensures(f, (&avw,), false));
                                }
                            }
                        }
                    }
                },
                Err(_) => {
                    proof {
                        lemma_records_split(self.image(), b as int, num_blocks(im0));
                        lemma_records_split(self.image(), b as int + 1, num_blocks(im0));
                        assert(records_upto(self.image(), b as int + 1) == records_upto(
                            self.image(),
                            b as int,
                        ));
                        assert forall|i: int|
                            0 <= i < records(self.image()).len() && (#[trigger] records(
                            self.image(),
                        )[i]).0 < b + 1 implies exists|av: Vec<u8>|
                            av@ == records(self.image())[i].1 && call_ensures(
                                f,
                                (&av,),
                                false,
                            ) by {
                            assert(records(self.image())[i].0 < b) by {
                                if !(records(self.image())[i].0 < b) {
                                    assert(i < records_upto(self.image(), b as int + 1).len());
                                    assert(i < records_upto(self.image(), b as int).len());
                                    assert(records(self.image())[i].0 < b);
                                }
                            }
                        }
                    }
                },
            }
            b = b + 1;
        }
        proof {
            crate::protocol::lemma_records_heads(self.image(), self.nblocks());
            assert forall|i: int|
                0 <= i < records(self.image()).len() implies exists|av: Vec<u8>|
                av@ == (#[trigger] records(self.image())[i]).1 && call_ensures(
                    f,
                    (&av,),
                    false,
                ) by {
                assert(read_result(self.image(), records(self.image())[i].0 as int) == Ok::<
                    Seq<u8>,
                    Error,
                >(records(self.image())[i].1) && records(self.image())[i].0 < self.nblocks());
            }
            assert(hs.len() == out@.len());
        }
        out
    }

    /// Bind a store to an existing image after checking its shape, instead
    /// of demanding it up front as `new` does: an image in which some
    /// `Continuation` block directly follows an `Empty` block belongs to no
    /// record and is rejected as `None`.
    ///
    /// The whole image is rejected, rather than degrading block by block,
    /// because the store's guarantees rest on that shape: a write into a
    /// free run next to a stray `Continuation` block would silently extend
    /// the new record into foreign bytes. The store itself never produces
    /// such an image, so only outside corruption is turned away here.
    #[verifier::loop_isolation(false)]
    pub fn open(image: Vec<u8>, blocks: Option<u64>) -> (r: Option<Cabide>)
        requires
            blocks matches Some(bl) ==> (bl as int) * 30 <= usize::MAX as int,
        ensures
            r is Some <==> well_framed(pad_blocks(image@)),
            r matches Some(c) ==> ({
                &&& c.wf()
                &&& c.cursor() == num_blocks(pad_blocks(image@))
                &&& (forall|b: int|
                    0 <= b ==> #[trigger] read_result(c.image(), b) == read_result(
                        pad_blocks(image@),
                        b,
                    ))
                &&& c.image().len() == (match blocks {
                    Some(bl) => if (bl as int) * 30 >= pad_blocks(image@).len() {
                        (bl as int) * 30
                    } else {
                        pad_blocks(image@).len() as int
                    },
                    None => pad_blocks(image@).len() as int,
                })
                &&& (forall|j: int|
                    0 <= j < pad_blocks(image@).len() ==> #[trigger] c.image()[j] == pad_blocks(
                        image@,
                    )[j])
                &&& (forall|j: int|
                    pad_blocks(image@).len() <= j < c.image().len() ==> #[trigger] c.image()[j]
                        == 0)
            }),
    {
        let mut data = image;
        let ghost orig = data@;
        pad_image(&mut data);
        let ghost v = data@;
        let dlen = data.len();
        let nb = dlen / BLOCK_SIZE;
        proof {
            assert(nb * 30 == dlen);
            assert(nb == num_blocks(v));
        }
        let mut b: usize = 0;
        while b + 1 < nb
            invariant
                0 <= b,
                nb > 0 ==> b < nb,
                nb == 0 ==> b == 0,
                forall|j: int|
                    0 <= j < b && tag(v, j) == 0 ==> #[trigger] tag(v, j + 1) != 2,
            decreases nb - b,
        {
            if data[b * 30] == 0 && data[(b + 1) * 30] == 2 {
                proof {
                    assert(tag(v, b as int) == 0 && tag(v, b as int + 1) == 2);
                    assert(!well_framed(v));
                }
                return None;
            }
            proof {
                assert forall|j: int|
                    0 <= j < b + 1 && tag(v, j) == 0 implies #[trigger] tag(v, j + 1) != 2 by {
                    if j == b {
                        assert(v[b * 30] != 0 || v[(b + 1) * 30] != 2);
                    }
                }
            }
            b = b + 1;
        }
        proof {
            assert(well_framed(v));
            assert(pad_blocks(v) =~= v) by {
                assert(v.len() as int % 30 == 0);
                assert(pad_blocks(v).len() == v.len());
            }
        }
        Some(Cabide::new(data, blocks))
    }

    /// The raw bytes of the store's image, for a surrounding layer that
    /// mirrors them to a file.
    pub fn bytes(&self) -> (r: &Vec<u8>)
        ensures
            r@ == self.image(),
    {
        &self.data
    }

    /// The first record, in ascending block order, whose payload the
    /// predicate accepts. Free blocks and record interiors are skipped: they
    /// hold no record.
    #[verifier::loop_isolation(false)]
    pub fn first<F: Fn(&Vec<u8>) -> bool>(&self, f: F) -> (r: Option<Vec<u8>>)
        requires
            self.wf(),
            forall|v: &Vec<u8>| #[trigger] call_requires(f, (v,)),
        ensures
            r is None ==> (forall|i: int|
                0 <= i < records(self.image()).len() ==> exists|av: Vec<u8>|
                    av@ == (#[trigger] records(self.image())[i]).1 && call_ensures(
                        f,
                        (&av,),
                        false,
                    )),
            r matches Some(v) ==> (exists|i: int|
                {
                    &&& 0 <= i < records(self.image()).len()
                    &&& v@ == (#[trigger] records(self.image())[i]).1
                    &&& (exists|av: Vec<u8>|
                        av@ == records(self.image())[i].1 && call_ensures(f, (&av,), true))
                    &&& (forall|j: int|
                        0 <= j < i ==> exists|av: Vec<u8>|
                            av@ == (#[trigger] records(self.image())[j]).1 && call_ensures(
                                f,
                                (&av,),
                                false,
                            ))
                }),
    {
        let ghost im = self.image();
        let nb = self.blocks();
        let mut b: u64 = 0;
        while b < nb
            invariant
                0 <= b <= nb,
                nb == self.nblocks(),
                forall|i: int|
                    0 <= i < records_upto(im, b as int).len() ==> exists|av: Vec<u8>|
                        av@ == (#[trigger] records_upto(im, b as int)[i]).1 && call_ensures(
                            f,
                            (&av,),
                            false,
                        ),
            decreases nb - b,
        {
            let rr = self.read(b);
            match rr {
                Ok(payload) => {
                    let hit = f(&payload);
                    let ghost avw = payload;
                    proof {
                        assert(records_upto(im, b as int + 1) == records_upto(im, b as int).push(
                            (b, payload@),
                        ));
                    }
                    if hit {
                        proof {
                            let i = records_upto(im, b as int).len() as int;
                            crate::protocol::lemma_records_upto_prefix(
                                im,
                                b as int + 1,
                                self.nblocks(),
                            );
                            assert(records(im)[i] == (b, payload@));
                            assert forall|j: int| 0 <= j < i implies exists|av: Vec<u8>|
                                av@ == (#[trigger] records(im)[j]).1 && call_ensures(
                                    f,
                                    (&av,),
                                    false,
                                ) by {
                                assert(records(im)[j] == records_upto(im, b as int)[j]);
                            }
                        }
                        return Some(payload);
                    }
                    proof {
                        assert forall|i: int|
                            0 <= i < records_upto(im, b as int + 1).len() implies exists|
                            av: Vec<u8>,
                        |
                            av@ == (#[trigger] records_upto(im, b as int + 1)[i]).1 && call_ensures(
                                f,
                                (&av,),
                                false,
                            ) by {
                            if i < records_upto(im, b as int).len() {
                                assert(records_upto(im, b as int + 1)[i] == records_upto(
                                    im,
                                    b as int,
                                )[i]);
                            } else {
                                assert(records_upto(im, b as int + 1)[i] == (b, avw@));
                                assert(call_ensures(f, (&avw,), false));
                            }
                        }
                    }
                },
                Err(_) => {
                    proof {
                        assert(records_upto(im, b as int + 1) == records_upto(im, b as int));
                    }
                },
            }
            b = b + 1;
        }
        None
    }

    /// All records, in ascending block order, whose payloads the predicate
    /// accepts. Free blocks and record interiors are skipped.
    #[verifier::loop_isolation(false)]
    pub fn filter<F: Fn(&Vec<u8>) -> bool>(&self, f: F) -> (r: Vec<Vec<u8>>)
        requires
            self.wf(),
            forall|v: &Vec<u8>| #[trigger] call_requires(f, (v,)),
        ensures
            exists|keep: Seq<bool>|
                {
                    let recs = records(self.image());
                    &&& #[trigger] keep.len() == recs.len()
                    &&& (forall|i: int|
                        0 <= i < recs.len() ==> exists|av: Vec<u8>|
                            av@ == (#[trigger] recs[i]).1 && call_ensures(f, (&av,), keep[i]))
                    &&& views_of(r@) == selected(recs, keep)
                },
    {
        let ghost im = self.image();
        let nb = self.blocks();
        let mut out: Vec<Vec<u8>> = Vec::new();
        let ghost keep: Seq<bool> = Seq::empty();
        let mut b: u64 = 0;
        proof {
            assert(views_of(out@) =~= selected(records_upto(im, 0), keep));
        }
        while b < nb
            invariant
                0 <= b <= nb,
                nb == self.nblocks(),
                keep.len() == records_upto(im, b as int).len(),
                forall|i: int|
                    0 <= i < records_upto(im, b as int).len() ==> exists|av: Vec<u8>|
                        av@ == (#[trigger] records_upto(im, b as int)[i]).1 && call_ensures(
                            f,
                            (&av,),
                            keep[i],
                        ),
                views_of(out@) == selected(records_upto(im, b as int), keep),
            decreases nb - b,
        {
            let rr = self.read(b);
            match rr {
                Ok(payload) => {
                    let hit = f(&payload);
                    let ghost avw = payload;
                    let ghost keep0 = keep;
                    proof {
                        assert(records_upto(im, b as int + 1) == records_upto(im, b as int).push(
                            (b, payload@),
                        ));
                        keep = keep.push(hit);
                        assert(records_upto(im, b as int + 1).drop_last() =~= records_upto(
                            im,
                            b as int,
                        ));
                        assert(keep.drop_last() =~= keep0);
                    }
                    if hit {
                        out.push(payload);
                        proof {
                            assert(views_of(out@) =~= selected(
                                records_upto(im, b as int + 1),
                                keep,
                            ));
                        }
                    } else {
                        proof {
                            assert(views_of(out@) =~= selected(
                                records_upto(im, b as int + 1),
                                keep,
                            ));
                        }
                    }
                    proof {
                        assert forall|i: int|
                            0 <= i < records_upto(im, b as int + 1).len() implies exists|
                            av: Vec<u8>,
                        |
                            av@ == (#[trigger] records_upto(im, b as int + 1)[i]).1 && call_ensures(
                                f,
                                (&av,),
                                keep[i],
                            ) by {
                            if i < records_upto(im, b as int).len() {
                                assert(records_upto(im, b as int + 1)[i] == records_upto(
                                    im,
                                    b as int,
                                )[i]);
                                assert(keep[i] == keep0[i]);
                            } else {
                                assert(records_upto(im, b as int + 1)[i] == (b, avw@));
                                assert(call_ensures(f, (&avw,), hit));
                            }
                        }
                    }
                },
                Err(_) => {
                    proof {
                        assert(records_upto(im, b as int + 1) == records_upto(im, b as int));
                    }
                },
            }
            b = b + 1;
        }
        out
    }
}

} // verus!
