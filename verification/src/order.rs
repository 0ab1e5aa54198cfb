use vstd::prelude::*;
use vstd::multiset::Multiset;
use vstd::seq_lib::group_to_multiset_ensures;
use crate::Cabide;
use crate::views_of;
use crate::protocol::{
    read_result, records, payloads, needed_blocks, num_blocks, round_trips, run_end,
    well_framed, lemma_read_in_records, lemma_insert_to_multiset, lemma_remove_to_multiset,
    lemma_add_to_multiset, lemma_payloads_after_remove, lemma_records_upto_congruence,
};

verus! {

// An order-maintaining store keeps one collection queryable by key order:
// writes land in an unordered, capacity-bounded buffer store; when the
// buffer fills, a flush folds buffer and main together, sorts every record
// by its key, and rebuilds the main store in that order.

/// When the buffer store reaches this many blocks, a write triggers a flush.
pub const BUFFER_MAX_BLOCKS: u64 = 200;

/// A caller-supplied strategy extracting the ordering key of a payload. The
/// ordering proofs rely on the executable `key` agreeing with its
/// specification, so a payload always sorts the same way.
pub trait KeyFn {
    /// The key of a payload, as the contracts see it.
    spec fn key_spec(&self, v: Seq<u8>) -> u64;

    /// The key of a payload.
    fn key(&self, v: &Vec<u8>) -> (r: u64)
        ensures
            r == self.key_spec(v@),
    ;
}

/// The key strategy that orders payloads by their first byte.
pub struct FirstByteKey {}

impl KeyFn for FirstByteKey {
    open spec fn key_spec(&self, v: Seq<u8>) -> u64 {
        if v.len() > 0 {
            v[0] as u64
        } else {
            0
        }
    }

    fn key(&self, v: &Vec<u8>) -> u64 {
        if v.len() > 0 {
            v[0] as u64
        } else {
            0
        }
    }
}

/// The key strategy that reads a payload's first 8 bytes as a little-endian
/// unsigned integer (shorter payloads key as zero). An encoding that leads
/// with the key in that layout orders payloads by it.
pub struct LePrefixKey {}

impl KeyFn for LePrefixKey {
    open spec fn key_spec(&self, v: Seq<u8>) -> u64 {
        if v.len() >= 8 {
            (v[0] + v[1] * 0x100 + v[2] * 0x10000 + v[3] * 0x1000000 + v[4] * 0x100000000 + v[5]
                * 0x10000000000 + v[6] * 0x1000000000000 + v[7] * 0x100000000000000) as u64
        } else {
            0
        }
    }

    fn key(&self, v: &Vec<u8>) -> (r: u64)
        ensures
            r == self.key_spec(v@),
    {
        if v.len() >= 8 {
            (v[0] as u64) + (v[1] as u64) * 0x100 + (v[2] as u64) * 0x10000 + (v[3] as u64)
                * 0x1000000 + (v[4] as u64) * 0x100000000 + (v[5] as u64) * 0x10000000000 + (
            v[6] as u64) * 0x1000000000000 + (v[7] as u64) * 0x100000000000000
        } else {
            0
        }
    }
}

/// Blocks a store holds right after a record of `n` blocks lands in it:
/// unchanged when a free run serves the write, else grown to cover the
/// appended record (the base store's contract makes this exact).
pub open spec fn blocks_after_write(c: Cabide, n: int) -> int {
    if crate::index::alloc_hit(c.free_runs(), n as u64) {
        num_blocks(c.image())
    } else if num_blocks(c.image()) >= c.cursor() + n {
        num_blocks(c.image())
    } else {
        c.cursor() + n
    }
}

/// The payloads of the records over the first `b` blocks of an image, in
/// block order.
pub open spec fn payloads_upto(image: Seq<u8>, b: int) -> Seq<Seq<u8>> {
    crate::protocol::records_upto(image, b).map_values(|r: (u64, Seq<u8>)| r.1)
}

/// The payloads among `s` whose key equals `target`, in order.
pub open spec fn matching<K: KeyFn>(kf: &K, target: u64, s: Seq<Seq<u8>>) -> Seq<Seq<u8>>
    decreases s.len(),
{
    if s.len() == 0 {
        Seq::<Seq<u8>>::empty()
    } else {
        let pre = matching(kf, target, s.drop_last());
        if kf.key_spec(s.last()) == target {
            pre.push(s.last())
        } else {
            pre
        }
    }
}

/// One more payload extends the match list by it exactly when its key
/// matches.
proof fn lemma_matching_push<K: KeyFn>(kf: &K, target: u64, s: Seq<Seq<u8>>, x: Seq<u8>)
    ensures
        kf.key_spec(x) == target ==> matching(kf, target, s.push(x)) == matching(
            kf,
            target,
            s,
        ).push(x),
        kf.key_spec(x) != target ==> matching(kf, target, s.push(x)) == matching(kf, target, s),
{
    assert(s.push(x).drop_last() =~= s);
    assert(s.push(x).last() == x);
}

/// The match list over a longer payload list extends the one over a prefix.
proof fn lemma_matching_prefix<K: KeyFn>(kf: &K, target: u64, s: Seq<Seq<u8>>, ext: Seq<Seq<u8>>)
    ensures
        matching(kf, target, s).len() <= matching(kf, target, s + ext).len(),
        matching(kf, target, s + ext).take(matching(kf, target, s).len() as int) == matching(
            kf,
            target,
            s,
        ),
    decreases ext.len(),
{
    if ext.len() == 0 {
        assert(s + ext =~= s);
        assert(matching(kf, target, s).take(matching(kf, target, s).len() as int) =~= matching(
            kf,
            target,
            s,
        ));
    } else {
        lemma_matching_prefix(kf, target, s, ext.drop_last());
        assert(s + ext =~= (s + ext.drop_last()).push(ext.last()));
        lemma_matching_push(kf, target, s + ext.drop_last(), ext.last());
        let m0 = matching(kf, target, s);
        let m1 = matching(kf, target, s + ext.drop_last());
        let m2 = matching(kf, target, s + ext);
        if kf.key_spec(ext.last()) == target {
            assert(m2 == m1.push(ext.last()));
            assert(m2.take(m0.len() as int) =~= m1.take(m0.len() as int));
        }
    }
}

/// What one scanned block adds to the payload list: its record's payload on
/// a successful decode, nothing otherwise.
proof fn lemma_payloads_upto_step(image: Seq<u8>, b: int)
    ensures
        read_result(image, b) is Ok ==> payloads_upto(image, b + 1) == payloads_upto(
            image,
            b,
        ).push(read_result(image, b)->Ok_0),
        read_result(image, b) is Err ==> payloads_upto(image, b + 1) == payloads_upto(image, b),
    decreases b,
{
    if b < 0 {
        assert(crate::protocol::records_upto(image, b + 1) == crate::protocol::records_upto(
            image,
            b,
        ));
    } else {
        match read_result(image, b) {
            Ok(p) => {
                assert(crate::protocol::records_upto(image, b + 1)
                    == crate::protocol::records_upto(image, b).push((b as u64, p)));
                assert(payloads_upto(image, b + 1) =~= payloads_upto(image, b).push(p));
            },
            Err(_) => {},
        }
    }
}

/// Payloads stand in ascending key order.
pub open spec fn sorted_keys<K: KeyFn>(kf: &K, s: Seq<Seq<u8>>) -> bool {
    forall|i: int, j: int|
        0 <= i < j < s.len() ==> kf.key_spec(#[trigger] s[i]) <= kf.key_spec(#[trigger] s[j])
}

/// Every payload survives reframing untouched (the stores of an
/// order-maintained pair rewrite records wholesale on flush, so they hold
/// only such payloads).
pub open spec fn all_round_trip(s: Seq<Seq<u8>>) -> bool {
    forall|i: int| 0 <= i < s.len() ==> round_trips(#[trigger] s[i])
}

/// A predicate that keeps everything selects every record payload.
proof fn lemma_selected_all_true(recs: Seq<(u64, Seq<u8>)>, keep: Seq<bool>)
    requires
        keep.len() == recs.len(),
        forall|i: int| 0 <= i < keep.len() ==> #[trigger] keep[i],
    ensures
        crate::selected(recs, keep) == recs.map_values(|r: (u64, Seq<u8>)| r.1),
    decreases recs.len(),
{
    if recs.len() == 0 {
        assert(crate::selected(recs, keep) =~= recs.map_values(|r: (u64, Seq<u8>)| r.1));
    } else {
        lemma_selected_all_true(recs.drop_last(), keep.drop_last());
        assert(keep.last());
        assert(recs.map_values(|r: (u64, Seq<u8>)| r.1) =~= recs.drop_last().map_values(
            |r: (u64, Seq<u8>)| r.1,
        ).push(recs.last().1));
    }
}

/// Removing one payload keeps a list sorted and keeps every remaining
/// payload reframeable.
proof fn lemma_props_after_remove<K: KeyFn>(kf: &K, p0: Seq<Seq<u8>>, p1: Seq<Seq<u8>>, pos: int)
    requires
        0 <= pos < p0.len(),
        p1 == p0.remove(pos),
    ensures
        sorted_keys(kf, p0) ==> sorted_keys(kf, p1),
        all_round_trip(p0) ==> all_round_trip(p1),
{
    assert(forall|i: int| 0 <= i < pos ==> #[trigger] p1[i] == p0[i]);
    assert(forall|i: int| pos <= i < p1.len() ==> #[trigger] p1[i] == p0[i + 1]);
    if sorted_keys(kf, p0) {
        assert forall|i: int, j: int|
            0 <= i < j < p1.len() implies kf.key_spec(#[trigger] p1[i]) <= kf.key_spec(
            #[trigger] p1[j],
        ) by {
            let i0 = if i < pos {
                i
            } else {
                i + 1
            };
            let j0 = if j < pos {
                j
            } else {
                j + 1
            };
            assert(p1[i] == p0[i0] && p1[j] == p0[j0]);
            assert(kf.key_spec(p0[i0]) <= kf.key_spec(p0[j0]));
        }
    }
    if all_round_trip(p0) {
        assert forall|i: int| 0 <= i < p1.len() implies round_trips(#[trigger] p1[i]) by {
            if i < pos {
                assert(p1[i] == p0[i]);
            } else {
                assert(p1[i] == p0[i + 1]);
            }
        }
    }
}

/// Blocks the first `i` payloads need when framed one after another.
pub open spec fn sum_needed_upto(s: Seq<Seq<u8>>, i: int) -> int
    decreases i,
{
    if i <= 0 {
        0
    } else {
        sum_needed_upto(s, i - 1) + needed_blocks(s[i - 1].len() as int)
    }
}

/// Blocks a payload list needs when framed one after another.
pub open spec fn sum_needed(s: Seq<Seq<u8>>) -> int {
    sum_needed_upto(s, s.len() as int)
}

/// Equal prefixes need equally many blocks.
proof fn lemma_sum_congruent(s1: Seq<Seq<u8>>, s2: Seq<Seq<u8>>, i: int)
    requires
        forall|j: int| 0 <= j < i ==> #[trigger] s1[j] == s2[j],
    ensures
        sum_needed_upto(s1, i) == sum_needed_upto(s2, i),
    decreases i,
{
    if i > 0 {
        lemma_sum_congruent(s1, s2, i - 1);
        assert(s1[i - 1] == s2[i - 1]);
    }
}

/// Concatenation needs the sum of the parts' needs.
proof fn lemma_sum_concat(a: Seq<Seq<u8>>, b: Seq<Seq<u8>>)
    ensures
        sum_needed(a + b) == sum_needed(a) + sum_needed(b),
    decreases b.len(),
{
    if b.len() == 0 {
        assert(a + b =~= a);
        lemma_sum_congruent(a + b, a, a.len() as int);
    } else {
        lemma_sum_concat(a, b.drop_last());
        assert(a + b =~= (a + b.drop_last()).push(b.last()));
        lemma_sum_congruent(a + b, (a + b.drop_last()).push(b.last()), (a + b).len() as int);
        assert(sum_needed_upto((a + b.drop_last()).push(b.last()), (a + b).len() as int)
            == sum_needed_upto((a + b.drop_last()).push(b.last()), (a + b).len() as int - 1)
            + needed_blocks(b.last().len() as int));
        lemma_sum_congruent(
            (a + b.drop_last()).push(b.last()),
            a + b.drop_last(),
            (a + b.drop_last()).len() as int,
        );
        assert(sum_needed_upto(b, b.len() as int) == sum_needed_upto(b, b.len() as int - 1)
            + needed_blocks(b.last().len() as int));
        lemma_sum_congruent(b, b.drop_last(), b.drop_last().len() as int);
    }
}

/// Inserting a payload adds its need.
proof fn lemma_sum_insert(s: Seq<Seq<u8>>, p: int, x: Seq<u8>)
    requires
        0 <= p <= s.len(),
    ensures
        sum_needed(s.insert(p, x)) == sum_needed(s) + needed_blocks(x.len() as int),
{
    assert(s =~= s.take(p) + s.skip(p));
    assert(s.insert(p, x) =~= s.take(p) + (seq![x] + s.skip(p)));
    lemma_sum_concat(s.take(p), s.skip(p));
    lemma_sum_concat(s.take(p), seq![x] + s.skip(p));
    lemma_sum_concat(seq![x], s.skip(p));
    assert(sum_needed(seq![x]) == needed_blocks(x.len() as int)) by {
        assert(sum_needed_upto(seq![x], 1) == sum_needed_upto(seq![x], 0) + needed_blocks(
            seq![x][0].len() as int,
        ));
        assert(seq![x][0] == x);
    }
    lemma_sum_congruent(s, s.take(p) + s.skip(p), s.len() as int);
    lemma_sum_congruent(s.insert(p, x), s.take(p) + (seq![x] + s.skip(p)), s.len() as int + 1);
}

/// Removing a payload takes its need away.
proof fn lemma_sum_remove(s: Seq<Seq<u8>>, p: int)
    ensures
        0 <= p < s.len() ==> sum_needed(s.remove(p)) == sum_needed(s) - needed_blocks(
            s[p].len() as int,
        ),
{
    if 0 <= p < s.len() {
        assert(s.remove(p).insert(p, s[p]) =~= s);
        lemma_sum_insert(s.remove(p), p, s[p]);
        lemma_sum_congruent(s.remove(p).insert(p, s[p]), s, s.len() as int);
    }
}

proof fn lemma_sum_needed_mono(s: Seq<Seq<u8>>, i: int, j: int)
    requires
        0 <= i <= j,
    ensures
        sum_needed_upto(s, i) <= sum_needed_upto(s, j),
    decreases j - i,
{
    if i < j {
        lemma_sum_needed_mono(s, i, j - 1);
    }
}

/// A fresh vector with the same bytes.
#[verifier::loop_isolation(false)]
fn copy_bytes(v: &Vec<u8>) -> (r: Vec<u8>)
    ensures
        r@ == v@,
{
    let mut r: Vec<u8> = Vec::new();
    let mut i: usize = 0;
    while i < v.len()
        invariant
            0 <= i <= v@.len(),
            r@ == v@.subrange(0, i as int),
        decreases v@.len() - i,
    {
        r.push(v[i]);
        i = i + 1;
        proof {
            assert(r@ =~= v@.subrange(0, i as int));
        }
    }
    proof {
        assert(v@.subrange(0, v@.len() as int) =~= v@);
    }
    r
}

/// Sort payloads into ascending key order. The result holds exactly the
/// given payloads.
#[verifier::loop_isolation(false)]
#[verifier::rlimit(60)]
fn sort_by_key<K: KeyFn>(kf: &K, input: Vec<Vec<u8>>) -> (r: Vec<Vec<u8>>)
    ensures
        views_of(r@).to_multiset() == views_of(input@).to_multiset(),
        sorted_keys(kf, views_of(r@)),
        r@.len() == input@.len(),
        sum_needed(views_of(r@)) == sum_needed(views_of(input@)),
{
    let ghost v0 = views_of(input@);
    let mut v = input;
    let mut i: usize = 1;
    while i < v.len()
        invariant
            1 <= i,
            v@.len() == input@.len(),
            views_of(v@).to_multiset() == v0.to_multiset(),
            sum_needed(views_of(v@)) == sum_needed(v0),
            forall|p: int, q: int|
                0 <= p < q < i && q < v@.len() ==> kf.key_spec(#[trigger] views_of(v@)[p])
                    <= kf.key_spec(#[trigger] views_of(v@)[q]),
        decreases v@.len() - i,
    {
        let key_i = kf.key(&v[i]);
        let mut p: usize = 0;
        while p < i && kf.key(&v[p]) <= key_i
            invariant
                0 <= p <= i,
                i < v@.len(),
                key_i == kf.key_spec(views_of(v@)[i as int]),
                forall|q: int| 0 <= q < p ==> kf.key_spec(#[trigger] views_of(v@)[q]) <= key_i,
            decreases i - p,
        {
            proof {
                assert(views_of(v@)[p as int] == v@[p as int]@);
            }
            p = p + 1;
        }
        if p < i {
            let ghost before = views_of(v@);
            let x = v.remove(i);
            let ghost mid = views_of(v@);
            v.insert(p, x);
            proof {
                assert(mid =~= before.remove(i as int));
                assert(views_of(v@) =~= mid.insert(p as int, x@));
                lemma_remove_to_multiset(before, i as int);
                lemma_insert_to_multiset(mid, p as int, x@);
                lemma_sum_remove(before, i as int);
                lemma_sum_insert(mid, p as int, x@);
                assert(before[i as int] == x@);
                broadcast use group_to_multiset_ensures;

                assert(before.contains(x@));
                assert(before.to_multiset().count(x@) > 0);
                assert(before.to_multiset().remove(x@).insert(x@) =~= before.to_multiset());
                assert(views_of(v@).to_multiset() =~= before.to_multiset());
                // the prefix one longer is sorted again
                assert forall|a: int, b: int|
                    0 <= a < b < i + 1 && b < v@.len() implies kf.key_spec(
                    #[trigger] views_of(v@)[a],
                ) <= kf.key_spec(#[trigger] views_of(v@)[b]) by {
                    let w = views_of(v@);
                    assert(forall|q: int| 0 <= q < p ==> w[q] == before[q]);
                    assert(w[p as int] == x@);
                    assert(forall|q: int| p < q <= i ==> w[q] == before[q - 1]);
                    assert(kf.key_spec(before[p as int]) > key_i);
                    if b < p {
                    } else if b == p {
                        assert(kf.key_spec(w[a]) <= key_i);
                    } else {
                        assert(kf.key_spec(w[b]) >= kf.key_spec(before[p as int]));
                        if a < p {
                        } else if a == p {
                            assert(kf.key_spec(w[a]) == key_i);
                        } else {
                            assert(w[a] == before[a - 1]);
                        }
                    }
                }
            }
        } else {
            proof {
                assert forall|a: int, b: int|
                    0 <= a < b < i + 1 && b < v@.len() implies kf.key_spec(
                    #[trigger] views_of(v@)[a],
                ) <= kf.key_spec(#[trigger] views_of(v@)[b]) by {
                    if b == i {
                        assert(kf.key_spec(views_of(v@)[a]) <= key_i);
                    }
                }
            }
        }
        i = i + 1;
    }
    proof {
        if v@.len() > 1 {
            assert(sorted_keys(kf, views_of(v@)));
        } else {
            assert(sorted_keys(kf, views_of(v@)));
        }
    }
    v
}

/// One removal step of a key sweep: the store loses exactly the removed
/// payload, order and reframeability survive, and the running conservation
/// equation moves the payload from the store to the removed list.
proof fn lemma_removal_step<K: KeyFn>(
    kf: &K,
    im0: Seq<u8>,
    im1: Seq<u8>,
    other: Multiset<Seq<u8>>,
    orig_ms: Multiset<Seq<u8>>,
    out0: Seq<Seq<u8>>,
    s: u64,
)
    requires
        read_result(im0, s as int) is Ok,
        ({
            let e = run_end(im0, s as int);
            &&& s < e <= num_blocks(im0)
            &&& num_blocks(im1) == num_blocks(im0)
            &&& (forall|j: int|
                s <= j < e ==> #[trigger] read_result(im1, j) == Err::<Seq<u8>, crate::Error>(
                    crate::Error::EmptyBlock,
                ))
            &&& (forall|j: int|
                0 <= j && !(s <= j < e) ==> #[trigger] read_result(im1, j) == read_result(im0, j))
        }),
        orig_ms == payloads(im0).to_multiset().add(other).add(out0.to_multiset()),
    ensures
        ({
            let x = read_result(im0, s as int)->Ok_0;
            &&& orig_ms == payloads(im1).to_multiset().add(other).add(
                out0.push(x).to_multiset(),
            )
            &&& (sorted_keys(kf, payloads(im0)) ==> sorted_keys(kf, payloads(im1)))
            &&& (all_round_trip(payloads(im0)) ==> all_round_trip(payloads(im1)))
        }),
{
    broadcast use group_to_multiset_ensures;

    let e = run_end(im0, s as int);
    crate::protocol::lemma_run_end_props(im0, s as int);
    assert forall|j: int| s < j < e implies #[trigger] read_result(im0, j) is Err by {
        assert(crate::protocol::tag(im0, j) == 2);
    }
    assert forall|j: int| s <= j < e implies #[trigger] read_result(im1, j) is Err by {
        assert(read_result(im1, j) == Err::<Seq<u8>, crate::Error>(crate::Error::EmptyBlock));
    }
    lemma_payloads_after_remove(im0, im1, s, e);
    let pos = crate::protocol::records_upto(im0, s as int).len() as int;
    let x = read_result(im0, s as int)->Ok_0;
    lemma_remove_to_multiset(payloads(im0), pos);
    lemma_props_after_remove(kf, payloads(im0), payloads(im1), pos);
    assert(payloads(im0).contains(x)) by {
        assert(payloads(im0)[pos] == x);
    }
    assert(payloads(im0).to_multiset().count(x) > 0);
    assert(out0.push(x).to_multiset() =~= out0.to_multiset().insert(x));
    assert(payloads(im1).to_multiset().add(other).add(out0.push(x).to_multiset())
        =~= payloads(im0).to_multiset().add(other).add(out0.to_multiset()));
}

/// After a scan passes a block holding a record whose key misses the
/// target, every record head below the next block is known to miss it.
proof fn lemma_scanned_head<K: KeyFn>(bv: Seq<u8>, b: u64, target: u64, kf: &K, p: Seq<u8>)
    requires
        num_blocks(bv) <= u64::MAX,
        read_result(bv, b as int) == Ok::<Seq<u8>, crate::Error>(p),
        kf.key_spec(p) != target,
        forall|i: int|
            0 <= i < records(bv).len() && (#[trigger] records(bv)[i]).0 < b ==> kf.key_spec(
                records(bv)[i].1,
            ) != target,
    ensures
        forall|i: int|
            0 <= i < records(bv).len() && (#[trigger] records(bv)[i]).0 < b + 1 ==> kf.key_spec(
                records(bv)[i].1,
            ) != target,
{
    lemma_read_in_records(bv, b);
    crate::protocol::lemma_records_split(bv, b as int, num_blocks(bv));
    crate::protocol::lemma_records_split(bv, b as int + 1, num_blocks(bv));
    crate::protocol::lemma_records_upto_prefix(bv, b as int, b as int + 1);
    let pos = crate::protocol::records_upto(bv, b as int).len() as int;
    assert(crate::protocol::records_upto(bv, b as int + 1).len() == pos + 1);
    assert forall|i: int|
        0 <= i < records(bv).len() && (#[trigger] records(bv)[i]).0 < b + 1 implies kf.key_spec(
        records(bv)[i].1,
    ) != target by {
        if records(bv)[i].0 < b {
        } else {
            assert(i < pos + 1 && !(i < pos));
            assert(records(bv)[i] == (b, p));
        }
    }
}

/// After a scan passes a block holding no record head, the bound on scanned
/// heads moves up by one block.
proof fn lemma_scanned_none<K: KeyFn>(bv: Seq<u8>, b: u64, target: u64, kf: &K)
    requires
        num_blocks(bv) <= u64::MAX,
        read_result(bv, b as int) is Err,
        forall|i: int|
            0 <= i < records(bv).len() && (#[trigger] records(bv)[i]).0 < b ==> kf.key_spec(
                records(bv)[i].1,
            ) != target,
    ensures
        forall|i: int|
            0 <= i < records(bv).len() && (#[trigger] records(bv)[i]).0 < b + 1 ==> kf.key_spec(
                records(bv)[i].1,
            ) != target,
{
    crate::protocol::lemma_records_heads(bv, num_blocks(bv));
    if (b as int) < num_blocks(bv) {
        crate::protocol::lemma_records_split(bv, b as int, num_blocks(bv));
        crate::protocol::lemma_records_split(bv, b as int + 1, num_blocks(bv));
        assert(crate::protocol::records_upto(bv, b as int + 1) == crate::protocol::records_upto(
            bv,
            b as int,
        ));
        assert forall|i: int|
            0 <= i < records(bv).len() && (#[trigger] records(bv)[i]).0 < b + 1 implies
            kf.key_spec(records(bv)[i].1) != target by {
            if !(records(bv)[i].0 < b) {
                assert(i < crate::protocol::records_upto(bv, b as int + 1).len());
                assert(i < crate::protocol::records_upto(bv, b as int).len());
                assert(records(bv)[i].0 < b);
            }
        }
    } else {
        assert forall|i: int|
            0 <= i < records(bv).len() && (#[trigger] records(bv)[i]).0 < b + 1 implies
            kf.key_spec(records(bv)[i].1) != target by {
            assert(read_result(bv, records(bv)[i].0 as int) == Ok::<Seq<u8>, crate::Error>(
                records(bv)[i].1,
            ) && records(bv)[i].0 < num_blocks(bv));
        }
    }
}

/// Everything a longer list of payloads keeps from a shorter prefix stays
/// contained in it.
proof fn lemma_contains_preserved(s0: Seq<Seq<u8>>, s1: Seq<Seq<u8>>, x: Seq<u8>)
    requires
        s0.len() <= s1.len(),
        forall|j: int| 0 <= j < s0.len() ==> #[trigger] s1[j] == s0[j],
        s0.contains(x),
    ensures
        s1.contains(x),
{
    let j = choose|j: int| 0 <= j < s0.len() && s0[j] == x;
    assert(s1[j] == x);
}

/// After a scan collects the record at one block, every matching record
/// head below the next block is in the collection.
proof fn lemma_collected_head<K: KeyFn>(
    bv: Seq<u8>,
    b: u64,
    target: u64,
    kf: &K,
    p: Seq<u8>,
    outv: Seq<Seq<u8>>,
)
    requires
        num_blocks(bv) <= u64::MAX,
        read_result(bv, b as int) == Ok::<Seq<u8>, crate::Error>(p),
        kf.key_spec(p) == target ==> outv.contains(p),
        forall|i: int|
            0 <= i < records(bv).len() && (#[trigger] records(bv)[i]).0 < b && kf.key_spec(
                records(bv)[i].1,
            ) == target ==> outv.contains(records(bv)[i].1),
    ensures
        forall|i: int|
            0 <= i < records(bv).len() && (#[trigger] records(bv)[i]).0 < b + 1 && kf.key_spec(
                records(bv)[i].1,
            ) == target ==> outv.contains(records(bv)[i].1),
{
    lemma_read_in_records(bv, b);
    crate::protocol::lemma_records_split(bv, b as int, num_blocks(bv));
    crate::protocol::lemma_records_split(bv, b as int + 1, num_blocks(bv));
    crate::protocol::lemma_records_upto_prefix(bv, b as int, b as int + 1);
    let pos = crate::protocol::records_upto(bv, b as int).len() as int;
    assert(crate::protocol::records_upto(bv, b as int + 1).len() == pos + 1);
    assert forall|i: int|
        0 <= i < records(bv).len() && (#[trigger] records(bv)[i]).0 < b + 1 && kf.key_spec(
            records(bv)[i].1,
        ) == target implies outv.contains(records(bv)[i].1) by {
        if records(bv)[i].0 < b {
        } else {
            assert(i < pos + 1 && !(i < pos));
            assert(records(bv)[i] == (b, p));
        }
    }
}

/// After a scan passes a block holding no record head, every matching
/// record head below the next block is still in the collection.
proof fn lemma_collected_none<K: KeyFn>(
    bv: Seq<u8>,
    b: u64,
    target: u64,
    kf: &K,
    outv: Seq<Seq<u8>>,
)
    requires
        num_blocks(bv) <= u64::MAX,
        read_result(bv, b as int) is Err,
        forall|i: int|
            0 <= i < records(bv).len() && (#[trigger] records(bv)[i]).0 < b && kf.key_spec(
                records(bv)[i].1,
            ) == target ==> outv.contains(records(bv)[i].1),
    ensures
        forall|i: int|
            0 <= i < records(bv).len() && (#[trigger] records(bv)[i]).0 < b + 1 && kf.key_spec(
                records(bv)[i].1,
            ) == target ==> outv.contains(records(bv)[i].1),
{
    crate::protocol::lemma_records_heads(bv, num_blocks(bv));
    assert forall|i: int|
        0 <= i < records(bv).len() && (#[trigger] records(bv)[i]).0 < b + 1 && kf.key_spec(
            records(bv)[i].1,
        ) == target implies outv.contains(records(bv)[i].1) by {
        assert(read_result(bv, records(bv)[i].0 as int) == Ok::<Seq<u8>, crate::Error>(
            records(bv)[i].1,
        ) && records(bv)[i].0 < num_blocks(bv));
        if !(records(bv)[i].0 < b) {
            if (b as int) < num_blocks(bv) {
                assert(records(bv)[i].0 == b);
                assert(read_result(bv, b as int) == Ok::<Seq<u8>, crate::Error>(
                    records(bv)[i].1,
                ));
                assert(false);
            } else {
                assert(false);
            }
        }
    }
}

/// Matches already collected from the buffer stay collected as the result
/// grows.
proof fn lemma_still_collected<K: KeyFn>(
    bv: Seq<u8>,
    target: u64,
    kf: &K,
    out0: Seq<Seq<u8>>,
    out1: Seq<Seq<u8>>,
    bound: u64,
)
    requires
        out0.len() <= out1.len(),
        forall|j: int| 0 <= j < out0.len() ==> #[trigger] out1[j] == out0[j],
        forall|i: int|
            0 <= i < records(bv).len() && (#[trigger] records(bv)[i]).0 < bound && kf.key_spec(
                records(bv)[i].1,
            ) == target ==> out0.contains(records(bv)[i].1),
    ensures
        forall|i: int|
            0 <= i < records(bv).len() && (#[trigger] records(bv)[i]).0 < bound && kf.key_spec(
                records(bv)[i].1,
            ) == target ==> out1.contains(records(bv)[i].1),
{
    assert forall|i: int|
        0 <= i < records(bv).len() && (#[trigger] records(bv)[i]).0 < bound && kf.key_spec(
            records(bv)[i].1,
        ) == target implies out1.contains(records(bv)[i].1) by {
        lemma_contains_preserved(out0, out1, records(bv)[i].1);
    }
}

/// One removal step of the buffer sweep leaves no matching record below
/// the next block: the record at this block left, and every earlier head
/// was already cleared.
proof fn lemma_sweep_step_removed<K: KeyFn>(kf: &K, im0: Seq<u8>, im1: Seq<u8>, b: u64, target: u64)
    requires
        num_blocks(im0) <= u64::MAX,
        read_result(im0, b as int) is Ok,
        ({
            let e = run_end(im0, b as int);
            &&& b < e <= num_blocks(im0)
            &&& num_blocks(im1) == num_blocks(im0)
            &&& (forall|j: int|
                b <= j < e ==> #[trigger] read_result(im1, j) == Err::<Seq<u8>, crate::Error>(
                    crate::Error::EmptyBlock,
                ))
            &&& (forall|j: int|
                0 <= j && !(b <= j < e) ==> #[trigger] read_result(im1, j) == read_result(im0, j))
        }),
        forall|i: int|
            0 <= i < records(im0).len() && (#[trigger] records(im0)[i]).0 < b ==> kf.key_spec(
                records(im0)[i].1,
            ) != target,
    ensures
        forall|i: int|
            0 <= i < records(im1).len() && (#[trigger] records(im1)[i]).0 < b + 1 ==> kf.key_spec(
                records(im1)[i].1,
            ) != target,
{
    let e = run_end(im0, b as int);
    crate::protocol::lemma_run_end_props(im0, b as int);
    assert forall|j: int| b < j < e implies #[trigger] read_result(im0, j) is Err by {
        assert(crate::protocol::tag(im0, j) == 2);
    }
    assert forall|j: int| b <= j < e implies #[trigger] read_result(im1, j) is Err by {
        assert(read_result(im1, j) == Err::<Seq<u8>, crate::Error>(crate::Error::EmptyBlock));
    }
    crate::protocol::lemma_records_remove_full(im0, im1, b, e);
    crate::protocol::lemma_records_split(im0, b as int, num_blocks(im0));
    crate::protocol::lemma_records_split(im0, b as int + 1, num_blocks(im0));
    crate::protocol::lemma_records_upto_prefix(im0, b as int, b as int + 1);
    let pos = crate::protocol::records_upto(im0, b as int).len() as int;
    assert(crate::protocol::records_upto(im0, b as int + 1).len() == pos + 1);
    assert forall|i: int|
        0 <= i < records(im1).len() && (#[trigger] records(im1)[i]).0 < b + 1 implies kf.key_spec(
        records(im1)[i].1,
    ) != target by {
        let i0 = if i < pos {
            i
        } else {
            i + 1
        };
        assert(records(im1)[i] == records(im0)[i0]);
        if i0 > pos {
            assert(!(i0 < pos + 1));
            assert(records(im0)[i0].0 >= b + 1);
        } else {
            assert(records(im0)[i0].0 < b);
        }
    }
}

/// After a scan accepts a block, every record head below the next block is
/// known to hold a reframeable payload.
proof fn lemma_reframe_head(bv: Seq<u8>, b: u64, p: Seq<u8>)
    requires
        num_blocks(bv) <= u64::MAX,
        read_result(bv, b as int) == Ok::<Seq<u8>, crate::Error>(p),
        round_trips(p),
        forall|i: int|
            0 <= i < records(bv).len() && (#[trigger] records(bv)[i]).0 < b ==> round_trips(
                records(bv)[i].1,
            ),
    ensures
        forall|i: int|
            0 <= i < records(bv).len() && (#[trigger] records(bv)[i]).0 < b + 1 ==> round_trips(
                records(bv)[i].1,
            ),
{
    lemma_read_in_records(bv, b);
    crate::protocol::lemma_records_split(bv, b as int, num_blocks(bv));
    crate::protocol::lemma_records_split(bv, b as int + 1, num_blocks(bv));
    crate::protocol::lemma_records_upto_prefix(bv, b as int, b as int + 1);
    let pos = crate::protocol::records_upto(bv, b as int).len() as int;
    assert(crate::protocol::records_upto(bv, b as int + 1).len() == pos + 1);
    assert forall|i: int|
        0 <= i < records(bv).len() && (#[trigger] records(bv)[i]).0 < b + 1 implies round_trips(
        records(bv)[i].1,
    ) by {
        if records(bv)[i].0 < b {
        } else {
            assert(i < pos + 1 && !(i < pos));
            assert(records(bv)[i] == (b, p));
        }
    }
}

/// Every payload of a whole-record image reframes to itself, checked by one
/// scan. An accepting answer is sound; a corrupt or boundary-straddling
/// payload is refused.
#[verifier::loop_isolation(false)]
fn all_reframe_check(c: &Cabide) -> (ok: bool)
    requires
        c.wf(),
    ensures
        ok <==> all_round_trip(payloads(c.image())),
{
    let nb = c.blocks();
    let mut b: u64 = 0;
    while b < nb
        invariant
            0 <= b <= nb,
            nb == num_blocks(c.image()),
            forall|i: int|
                0 <= i < records(c.image()).len() && (#[trigger] records(c.image())[i]).0 < b
                    ==> round_trips(records(c.image())[i].1),
        decreases nb - b,
    {
        match c.read(b) {
            Ok(p) => {
                let fits = p.len() >= 1 && (p.len() % 28 != 0 || (p[p.len() - 1] != 0 && p[p.len()
                    - 1] != 8));
                if !fits {
                    proof {
                        // the payload just read is a stored record that
                        // does not reframe: one witness refutes the whole
                        assert(!round_trips(p@));
                        lemma_read_in_records(c.image(), b);
                        let i = crate::protocol::records_upto(c.image(), b as int).len() as int;
                        assert(payloads(c.image())[i] == p@);
                        assert(!all_round_trip(payloads(c.image())));
                    }
                    return false;
                }
                proof {
                    assert(round_trips(p@));
                    lemma_reframe_head(c.image(), b, p@);
                }
            },
            Err(_) => {
                proof {
                    crate::protocol::lemma_records_heads(c.image(), num_blocks(c.image()));
                    assert forall|i: int|
                        0 <= i < records(c.image()).len() && (#[trigger] records(
                            c.image(),
                        )[i]).0 < b + 1 implies round_trips(records(c.image())[i].1) by {
                        if !(records(c.image())[i].0 < b) {
                            assert(read_result(c.image(), records(c.image())[i].0 as int)
                                == Ok::<Seq<u8>, crate::Error>(records(c.image())[i].1));
                            assert(records(c.image())[i].0 == b);
                            assert(false);
                        }
                    }
                }
            },
        }
        b = b + 1;
    }
    proof {
        crate::protocol::lemma_records_heads(c.image(), num_blocks(c.image()));
        assert forall|i: int|
            0 <= i < payloads(c.image()).len() implies round_trips(
            #[trigger] payloads(c.image())[i],
        ) by {
            assert(payloads(c.image())[i] == records(c.image())[i].1);
            assert(read_result(c.image(), records(c.image())[i].0 as int) == Ok::<
                Seq<u8>,
                crate::Error,
            >(records(c.image())[i].1) && records(c.image())[i].0 < num_blocks(c.image()));
        }
    }
    true
}

/// The records of a whole-record image stand in ascending key order,
/// checked by one scan in block order. An accepting answer is sound.
#[verifier::loop_isolation(false)]
#[verifier::rlimit(60)]
fn sorted_check<K: KeyFn>(kf: &K, c: &Cabide) -> (ok: bool)
    requires
        c.wf(),
    ensures
        ok <==> sorted_keys(kf, payloads(c.image())),
{
    let nb = c.blocks();
    let mut b: u64 = 0;
    let mut have_prev = false;
    let mut prev_key: u64 = 0;
    while b < nb
        invariant
            0 <= b <= nb,
            nb == num_blocks(c.image()),
            sorted_keys(kf, payloads_upto(c.image(), b as int)),
            have_prev <==> payloads_upto(c.image(), b as int).len() > 0,
            have_prev ==> forall|i: int|
                0 <= i < payloads_upto(c.image(), b as int).len() ==> kf.key_spec(
                    #[trigger] payloads_upto(c.image(), b as int)[i],
                ) <= prev_key,
            have_prev ==> kf.key_spec(payloads_upto(c.image(), b as int).last()) == prev_key,
        decreases nb - b,
    {
        match c.read(b) {
            Ok(p) => {
                let k = kf.key(&p);
                if have_prev && k < prev_key {
                    proof {
                        // the previous record's key exceeds this one's: two
                        // records out of order refute the whole
                        lemma_payloads_upto_step(c.image(), b as int);
                        let pu0 = payloads_upto(c.image(), b as int);
                        let pu1 = payloads_upto(c.image(), b as int + 1);
                        assert(pu1 == pu0.push(p@));
                        let wi = pu0.len() - 1;
                        let wj = pu0.len() as int;
                        assert(pu1[wi as int] == pu0.last() && pu1[wj] == p@);
                        assert(kf.key_spec(pu1[wi as int]) > kf.key_spec(pu1[wj]));
                        crate::protocol::lemma_records_upto_prefix(
                            c.image(),
                            b as int + 1,
                            nb as int,
                        );
                        assert(payloads(c.image())[wi as int] == pu1[wi as int]) by {
                            assert(records(c.image())[wi as int] == crate::protocol::records_upto(
                                c.image(),
                                b as int + 1,
                            )[wi as int]);
                        }
                        assert(payloads(c.image())[wj] == pu1[wj]) by {
                            assert(records(c.image())[wj] == crate::protocol::records_upto(
                                c.image(),
                                b as int + 1,
                            )[wj]);
                        }
                        assert(!sorted_keys(kf, payloads(c.image())));
                    }
                    return false;
                }
                proof {
                    lemma_payloads_upto_step(c.image(), b as int);
                    let pu0 = payloads_upto(c.image(), b as int);
                    let pu1 = payloads_upto(c.image(), b as int + 1);
                    assert(pu1 == pu0.push(p@));
                    assert forall|i: int, j: int|
                        0 <= i < j < pu1.len() implies kf.key_spec(#[trigger] pu1[i])
                        <= kf.key_spec(#[trigger] pu1[j]) by {
                        if j < pu0.len() {
                            assert(pu1[i] == pu0[i] && pu1[j] == pu0[j]);
                        } else {
                            assert(pu1[j] == p@);
                            assert(pu1[i] == pu0[i]);
                            assert(kf.key_spec(pu0[i]) <= prev_key);
                        }
                    }
                }
                have_prev = true;
                prev_key = k;
                proof {
                    assert forall|i: int|
                        0 <= i < payloads_upto(c.image(), b as int + 1).len() implies kf.key_spec(
                        #[trigger] payloads_upto(c.image(), b as int + 1)[i],
                    ) <= prev_key by {
                        let pu0 = payloads_upto(c.image(), b as int);
                        if i < pu0.len() {
                            assert(payloads_upto(c.image(), b as int + 1)[i] == pu0[i]);
                        } else {
                            assert(payloads_upto(c.image(), b as int + 1)[i] == p@);
                        }
                    }
                    assert(payloads_upto(c.image(), b as int + 1).last() == p@);
                }
            },
            Err(_) => {
                proof {
                    lemma_payloads_upto_step(c.image(), b as int);
                }
            },
        }
        b = b + 1;
    }
    proof {
        assert(payloads_upto(c.image(), nb as int) == payloads(c.image()));
    }
    true
}

/// A pair of stores kept queryable in key order:
/// A pair of stores kept queryable in key order: an unordered write buffer
/// and a main store whose records stand sorted by key, plus a scratch store
/// used only while a flush rebuilds the main contents.
pub struct OrderCabide<K: KeyFn> {
    /// Unordered, capacity-bounded landing place for writes.
    unordered_buffer: Cabide,
    /// Holds the flushed records, sorted by key in ascending block order.
    main: Cabide,
    /// Transient build target during a flush; empty between operations.
    sort_temp: Cabide,
    /// The ordering strategy.
    extract_order_field: K,
}

impl<K: KeyFn> OrderCabide<K> {
    /// The buffer store.
    pub closed spec fn buffer(&self) -> Cabide {
        self.unordered_buffer
    }

    /// The main store.
    pub closed spec fn main_store(&self) -> Cabide {
        self.main
    }

    /// The scratch store.
    pub closed spec fn scratch(&self) -> Cabide {
        self.sort_temp
    }

    /// The buffer store's image.
    pub open spec fn buffer_image(&self) -> Seq<u8> {
        self.buffer().image()
    }

    /// The main store's image.
    pub open spec fn main_image(&self) -> Seq<u8> {
        self.main_store().image()
    }

    /// The scratch store's image.
    pub open spec fn scratch_image(&self) -> Seq<u8> {
        self.scratch().image()
    }

    /// The ordering strategy.
    pub closed spec fn key_fn(&self) -> K {
        self.extract_order_field
    }

    /// Everything the store holds: buffer payloads then main payloads.
    pub open spec fn contents(&self) -> Seq<Seq<u8>> {
        payloads(self.buffer_image()) + payloads(self.main_image())
    }

    /// The pair's internal consistency: all three stores are consistent, the
    /// scratch store is empty, the main store's records stand in ascending
    /// key order, and every stored payload reframes to itself.
    pub open spec fn wf(&self) -> bool {
        &&& self.buffer().wf()
        &&& self.main_store().wf()
        &&& self.scratch().wf()
        &&& self.scratch_image().len() == 0
        &&& sorted_keys(&self.key_fn(), payloads(self.main_image()))
        &&& all_round_trip(payloads(self.buffer_image()))
        &&& all_round_trip(payloads(self.main_image()))
    }

    /// A fresh, empty order-maintained pair under the given key strategy.
    pub fn new(extract_order_field: K) -> (r: OrderCabide<K>)
        ensures
            r.wf(),
            r.key_fn() == extract_order_field,
            r.contents() == Seq::<Seq<u8>>::empty(),
            num_blocks(r.buffer_image()) == 0,
            num_blocks(r.main_image()) == 0,
    {
        let r = OrderCabide {
            unordered_buffer: Cabide::new(Vec::new(), None),
            main: Cabide::new(Vec::new(), None),
            sort_temp: Cabide::new(Vec::new(), None),
            extract_order_field,
        };
        proof {
            assert(crate::protocol::pad_blocks(Seq::<u8>::empty()) =~= Seq::<u8>::empty());
            assert(records(r.buffer_image()) =~= Seq::<(u64, Seq<u8>)>::empty()) by {
                assert(num_blocks(r.buffer_image()) == 0);
            }
            assert(records(r.main_image()) =~= Seq::<(u64, Seq<u8>)>::empty()) by {
                assert(num_blocks(r.main_image()) == 0);
            }
            assert(r.contents() =~= Seq::<Seq<u8>>::empty());
        }
        r
    }

    /// Bind a pair to existing buffer and main images, as when the pair's
    /// two files are reopened. The images are checked, not trusted: each
    /// must be a whole-record image, every payload must reframe to itself,
    /// and the main records must stand in ascending key order — an image
    /// set failing any check is rejected as `None`, since the pair's
    /// guarantees cannot be re-established over it.
    pub fn open(
        buffer_image: Vec<u8>,
        main_image: Vec<u8>,
        extract_order_field: K,
    ) -> (r: Option<OrderCabide<K>>)
        ensures
            r is Some <==> ({
                &&& well_framed(crate::protocol::pad_blocks(buffer_image@))
                &&& well_framed(crate::protocol::pad_blocks(main_image@))
                &&& all_round_trip(payloads(crate::protocol::pad_blocks(buffer_image@)))
                &&& all_round_trip(payloads(crate::protocol::pad_blocks(main_image@)))
                &&& sorted_keys(
                    &extract_order_field,
                    payloads(crate::protocol::pad_blocks(main_image@)),
                )
            }),
            r matches Some(c) ==> ({
                &&& c.wf()
                &&& c.key_fn() == extract_order_field
                &&& payloads(c.buffer_image()) == payloads(
                    crate::protocol::pad_blocks(buffer_image@),
                )
                &&& payloads(c.main_image()) == payloads(crate::protocol::pad_blocks(main_image@))
            }),
    {
        let ghost bpad = crate::protocol::pad_blocks(buffer_image@);
        let ghost mpad = crate::protocol::pad_blocks(main_image@);
        let buffer = match Cabide::open(buffer_image, None) {
            Some(c) => c,
            None => { return None },
        };
        let main = match Cabide::open(main_image, None) {
            Some(c) => c,
            None => { return None },
        };
        proof {
            lemma_records_upto_congruence(bpad, buffer.image(), num_blocks(buffer.image()));
            assert(num_blocks(buffer.image()) == num_blocks(bpad));
            assert(records(buffer.image()) == records(bpad));
            lemma_records_upto_congruence(mpad, main.image(), num_blocks(main.image()));
            assert(num_blocks(main.image()) == num_blocks(mpad));
            assert(records(main.image()) == records(mpad));
        }
        if !all_reframe_check(&buffer) {
            return None;
        }
        if !all_reframe_check(&main) {
            return None;
        }
        if !sorted_check(&extract_order_field, &main) {
            return None;
        }
        let r = OrderCabide {
            unordered_buffer: buffer,
            main,
            sort_temp: Cabide::new(Vec::new(), None),
            extract_order_field,
        };
        proof {
            assert(crate::protocol::pad_blocks(Seq::<u8>::empty()) =~= Seq::<u8>::empty());
            assert(r.scratch_image().len() == 0);
            assert(r.wf());
        }
        Some(r)
    }

    /// Store `obj`: it lands in the unordered buffer. When the buffer then
    /// holds `BUFFER_MAX_BLOCKS` blocks or more, a flush folds buffer and
    /// main together, sorts every payload by its key, and rebuilds the main
    /// store in that order, leaving the buffer empty. Either way the pair
    /// afterwards holds exactly the payloads it held before, plus `obj`.
    ///
    /// Only payloads that reframe to themselves are accepted
    /// (`round_trips`): a flush rewrites every record, and a payload that
    /// exactly fills its blocks and ends in a padding or marker byte would
    /// come back shortened — a disclosed defect of the block format, which a
    /// store that never rewrites records merely hides.
    #[verifier::loop_isolation(false)]
    #[verifier::rlimit(100)]
    pub fn write(&mut self, obj: &Vec<u8>)
        requires
            old(self).wf(),
            round_trips(obj@),
            (num_blocks(old(self).buffer_image()) + num_blocks(old(self).main_image())
                + needed_blocks(obj@.len() as int)) * 30 <= usize::MAX as int,
        ensures
            final(self).wf(),
            final(self).key_fn() == old(self).key_fn(),
            final(self).contents().to_multiset() == old(self).contents().to_multiset().insert(
                obj@,
            ),
            // the flush trigger: below the buffer bound nothing but the
            // buffer changes; at or above it the buffer is rebuilt into main
            // and emptied, unless the rebuilt store would not fit the
            // address space (then, flagged by the non-empty buffer, the
            // write stands as if below the bound)
            ({
                let after = blocks_after_write(
                    old(self).buffer(),
                    needed_blocks(obj@.len() as int),
                );
                &&& (after < BUFFER_MAX_BLOCKS ==> final(self).main_store() == old(
                    self,
                ).main_store() && final(self).scratch() == old(self).scratch() && num_blocks(
                    final(self).buffer_image(),
                ) == after)
                &&& (after >= BUFFER_MAX_BLOCKS && num_blocks(final(self).buffer_image()) != 0
                    ==> final(self).main_store() == old(self).main_store() && num_blocks(
                    final(self).buffer_image(),
                ) == after)
                &&& (num_blocks(final(self).buffer_image()) != 0 ==> payloads(
                    final(self).buffer_image(),
                ).to_multiset() == payloads(old(self).buffer_image()).to_multiset().insert(obj@)
                    && payloads(final(self).buffer_image()).contains(obj@))
            }),
            num_blocks(final(self).buffer_image()) == 0 ==> payloads(
                final(self).main_image(),
            ).to_multiset() == old(self).contents().to_multiset().insert(obj@),
            // at the bound, a rebuild that fits the address space cannot be
            // declined: the buffer provably empties
            ({
                let n = needed_blocks(obj@.len() as int);
                (blocks_after_write(old(self).buffer(), n) >= BUFFER_MAX_BLOCKS && (sum_needed(
                    old(self).contents(),
                ) + n) * 30 <= usize::MAX as int) ==> num_blocks(final(self).buffer_image()) == 0
            }),
    {
        let ghost bv0 = self.buffer_image();
        let ghost mv0 = self.main_image();
        let s = self.unordered_buffer.write(obj);
        proof {
            let n = needed_blocks(obj@.len() as int);
            let bv1 = self.buffer_image();
            crate::protocol::lemma_records_insert_full(bv0, bv1, s, s as int + n, obj@);
            let pos = crate::protocol::records_upto(bv0, s as int).len() as int;
            assert(payloads(bv1) =~= payloads(bv0).insert(pos, obj@)) by {
                assert(records(bv1) == records(bv0).insert(pos, (s, obj@)));
            }
            lemma_insert_to_multiset(payloads(bv0), pos, obj@);
            assert(all_round_trip(payloads(bv1))) by {
                assert forall|i: int|
                    0 <= i < payloads(bv1).len() implies round_trips(
                    #[trigger] payloads(bv1)[i],
                ) by {
                    if i < pos {
                        assert(payloads(bv1)[i] == payloads(bv0)[i]);
                    } else if i == pos {
                        assert(payloads(bv1)[i] == obj@);
                    } else {
                        assert(payloads(bv1)[i] == payloads(bv0)[i - 1]);
                    }
                }
            }
            lemma_add_to_multiset(payloads(bv1), payloads(mv0));
            lemma_add_to_multiset(payloads(bv0), payloads(mv0));
            assert(self.contents().to_multiset() =~= old(self).contents().to_multiset().insert(
                obj@,
            ));
            assert(num_blocks(bv1) == blocks_after_write(old(self).buffer(), n));
            assert(payloads(bv1).contains(obj@)) by {
                assert(payloads(bv1)[pos] == obj@);
            }
            assert(num_blocks(bv1) >= 1) by {
                assert(s + n <= num_blocks(bv1) && n >= 1);
            }
            // the pair's block needs grew by exactly the new record's
            lemma_sum_concat(payloads(bv1), payloads(mv0));
            lemma_sum_insert(payloads(bv0), pos, obj@);
            lemma_sum_concat(payloads(bv0), payloads(mv0));
            assert(sum_needed(self.contents()) == sum_needed(old(self).contents()) + n);
        }
        if self.unordered_buffer.blocks() >= BUFFER_MAX_BLOCKS {
            self.flush();
        }
    }

    /// Fold buffer and main together, sort every payload by its key, and
    /// rebuild the main store in that order; buffer and scratch end up
    /// empty. If the rebuilt store could not fit the address space, nothing
    /// changes.
    #[verifier::loop_isolation(false)]
    #[verifier::rlimit(100)]
    fn flush(&mut self)
        requires
            old(self).wf(),
        ensures
            final(self).wf(),
            final(self).key_fn() == old(self).key_fn(),
            final(self).contents().to_multiset() == old(self).contents().to_multiset(),
            num_blocks(final(self).buffer_image()) == 0 || *final(self) == *old(self),
            // when the rebuilt store fits the address space, the flush
            // cannot decline: the buffer ends empty
            sum_needed(old(self).contents()) * 30 <= usize::MAX as int ==> num_blocks(
                final(self).buffer_image(),
            ) == 0,
    {
        let keep_all = |v: &Vec<u8>| -> (b: bool)
            ensures
                b,
            { true };
        proof {
            assert(forall|v: &Vec<u8>| #[trigger] call_requires(keep_all, (v,)));
        }
        let mut all = self.main.filter(keep_all);
        proof {
            let kp = choose|keep: Seq<bool>|
                {
                    let recs = records(self.main.image());
                    &&& #[trigger] keep.len() == recs.len()
                    &&& (forall|i: int|
                        0 <= i < recs.len() ==> exists|av: Vec<u8>|
                            av@ == (#[trigger] recs[i]).1 && call_ensures(
                                keep_all,
                                (&av,),
                                keep[i],
                            ))
                    &&& views_of(all@) == crate::selected(recs, keep)
                };
            assert forall|i: int| 0 <= i < kp.len() implies #[trigger] kp[i] by {
                let av = choose|av: Vec<u8>|
                    av@ == (#[trigger] records(self.main.image())[i]).1 && call_ensures(
                        keep_all,
                        (&av,),
                        kp[i],
                    );
                assert(call_ensures(keep_all, (&av,), kp[i]));
            }
            lemma_selected_all_true(records(self.main.image()), kp);
            assert(views_of(all@) =~= payloads(self.main_image()));
        }
        let mut buf = self.unordered_buffer.filter(keep_all);
        proof {
            let kp = choose|keep: Seq<bool>|
                {
                    let recs = records(self.unordered_buffer.image());
                    &&& #[trigger] keep.len() == recs.len()
                    &&& (forall|i: int|
                        0 <= i < recs.len() ==> exists|av: Vec<u8>|
                            av@ == (#[trigger] recs[i]).1 && call_ensures(
                                keep_all,
                                (&av,),
                                keep[i],
                            ))
                    &&& views_of(buf@) == crate::selected(recs, keep)
                };
            assert forall|i: int| 0 <= i < kp.len() implies #[trigger] kp[i] by {
                let av = choose|av: Vec<u8>|
                    av@ == (#[trigger] records(self.unordered_buffer.image())[i]).1 && call_ensures(
                        keep_all,
                        (&av,),
                        kp[i],
                    );
                assert(call_ensures(keep_all, (&av,), kp[i]));
            }
            lemma_selected_all_true(records(self.unordered_buffer.image()), kp);
            assert(views_of(buf@) =~= payloads(self.buffer_image()));
        }
        let ghost allv0 = views_of(all@);
        let ghost bufv0 = views_of(buf@);
        all.append(&mut buf);
        proof {
            assert(views_of(all@) =~= allv0 + bufv0);
        }
        let sorted = sort_by_key(&self.extract_order_field, all);
        let ghost sv = views_of(sorted@);
        proof {
            lemma_add_to_multiset(allv0, bufv0);
            lemma_add_to_multiset(payloads(self.buffer_image()), payloads(self.main_image()));
            assert(sv.to_multiset() =~= self.contents().to_multiset());
            // the sort moved payloads around; their block needs are the same
            lemma_sum_concat(allv0, bufv0);
            lemma_sum_concat(payloads(self.buffer_image()), payloads(self.main_image()));
            assert(sum_needed(sv) == sum_needed(self.contents()));
            // every sorted payload is one of the stored ones
            assert forall|i: int|
                0 <= i < sv.len() implies round_trips(#[trigger] sv[i]) && sv[i].len() >= 1 by {
                broadcast use group_to_multiset_ensures;

                assert(sv.contains(sv[i]));
                assert(sv.to_multiset().count(sv[i]) > 0);
                assert(self.contents().to_multiset().count(sv[i]) > 0);
                assert(self.contents().contains(sv[i]));
                let j = choose|j: int| 0 <= j < self.contents().len() && self.contents()[j] == sv[i];
                if j < payloads(self.buffer_image()).len() {
                    assert(self.contents()[j] == payloads(self.buffer_image())[j]);
                } else {
                    assert(self.contents()[j] == payloads(self.main_image())[j - payloads(
                        self.buffer_image(),
                    ).len()]);
                }
            }
        }
        // make sure the rebuilt store fits the address space
        let mut acc: u64 = 0;
        let mut fits = true;
        let mut ci: usize = 0;
        let cap: u64 = (usize::MAX / 30) as u64;
        while ci < sorted.len()
            invariant
                0 <= ci <= sorted@.len(),
                fits ==> acc == sum_needed_upto(sv, ci as int) && acc <= cap,
                sum_needed(sv) * 30 <= usize::MAX as int ==> fits,
                forall|i: int| 0 <= i < sv.len() ==> (#[trigger] sv[i]).len() >= 1,
            decreases sorted@.len() - ci,
        {
            if !fits {
                break ;
            }
            proof {
                assert(views_of(sorted@)[ci as int] == sorted@[ci as int]@);
            }
            let l = sorted[ci].len();
            let n = ((l - 1) / 28 + 1) as u64;
            proof {
                assert(n == needed_blocks(sv[ci as int].len() as int));
                assert(n <= (usize::MAX as u64) / 28 + 1);
            }
            if acc > cap || cap - acc < n {
                proof {
                    // a fitting total never trips the bail: the prefix plus
                    // this record is still below the total
                    if sum_needed(sv) * 30 <= usize::MAX as int {
                        assert(sum_needed_upto(sv, ci as int + 1) == sum_needed_upto(
                            sv,
                            ci as int,
                        ) + n);
                        lemma_sum_needed_mono(sv, ci as int + 1, sv.len() as int);
                        assert(sum_needed_upto(sv, ci as int) + n <= sum_needed(sv));
                        assert(sum_needed(sv) <= cap) by {
                            assert(cap == (usize::MAX as int) / 30);
                            assert(sum_needed(sv) * 30 <= usize::MAX as int);
                        }
                        assert(false);
                    }
                }
                fits = false;
            } else {
                acc = acc + n;
                proof {
                    assert(acc == sum_needed_upto(sv, ci as int + 1));
                }
            }
            ci = ci + 1;
        }
        if !fits {
            proof {
                assert(sum_needed(old(self).contents()) * 30 > usize::MAX as int);
            }
            return ;
        }
        // rebuild: write the sorted payloads into the scratch store, then
        // take its bytes as the new main contents
        self.sort_temp.truncate();
        let mut i: usize = 0;
        while i < sorted.len()
            invariant
                0 <= i <= sorted@.len(),
                sv == views_of(sorted@),
                self.sort_temp.wf(),
                self.sort_temp.free_runs() == Seq::<(u64, u64)>::empty(),
                self.sort_temp.cursor() == num_blocks(self.scratch_image()),
                num_blocks(self.scratch_image()) == sum_needed_upto(sv, i as int),
                payloads(self.scratch_image()) == sv.take(i as int),
                sum_needed_upto(sv, i as int) <= acc,
                forall|ii: int| 0 <= ii < sv.len() ==> round_trips(#[trigger] sv[ii]),
                self.unordered_buffer == old(self).unordered_buffer,
                self.main == old(self).main,
                self.extract_order_field == old(self).extract_order_field,
            decreases sorted@.len() - i,
        {
            let ghost sc0 = self.scratch_image();
            proof {
                lemma_sum_needed_mono(sv, i as int + 1, sv.len() as int);
                assert(sum_needed_upto(sv, i as int + 1) == sum_needed_upto(sv, i as int)
                    + needed_blocks(sv[i as int].len() as int));
            }
            let s = self.sort_temp.write(&sorted[i]);
            proof {
                let n = needed_blocks(sv[i as int].len() as int);
                let sc1 = self.scratch_image();
                assert(!crate::index::alloc_hit(Seq::<(u64, u64)>::empty(), n as u64));
                crate::protocol::lemma_records_insert_full(sc0, sc1, s, s as int + n, sv[i as int]);
                let pos = crate::protocol::records_upto(sc0, s as int).len() as int;
                assert(pos == records(sc0).len()) by {
                    crate::protocol::lemma_records_err_range(
                        sc0,
                        s as int,
                        s as int,
                        num_blocks(sc0),
                    );
                    crate::protocol::lemma_records_upto_prefix(sc0, s as int, num_blocks(sc0));
                }
                assert(payloads(sc1) =~= sv.take(i as int + 1)) by {
                    assert(records(sc1) == records(sc0).insert(pos, (s, sv[i as int])));
                }
            }
            i = i + 1;
        }
        proof {
            assert(payloads(self.scratch_image()) == sv) by {
                assert(sv.take(sv.len() as int) =~= sv);
            }
        }
        // the scratch bytes become the main store
        let img = copy_bytes(self.sort_temp.bytes());
        proof {
            assert(crate::protocol::pad_blocks(img@) =~= img@) by {
                assert(img@.len() as int % 30 == 0);
            }
        }
        let new_main = Cabide::new(img, None);
        proof {
            let sc = self.scratch_image();
            crate::protocol::lemma_records_upto_congruence(sc, new_main.image(), num_blocks(sc));
            crate::protocol::lemma_records_upto_stable(
                sc,
                num_blocks(sc),
                num_blocks(new_main.image()),
            );
            crate::protocol::lemma_records_upto_congruence(
                sc,
                new_main.image(),
                num_blocks(new_main.image()),
            );
            assert(records(new_main.image()) == records(sc));
        }
        self.main = new_main;
        self.sort_temp.truncate();
        self.unordered_buffer.truncate();
        proof {
            assert(records(self.buffer_image()) =~= Seq::<(u64, Seq<u8>)>::empty()) by {
                assert(num_blocks(self.buffer_image()) == 0);
            }
            assert(payloads(self.buffer_image()) =~= Seq::<Seq<u8>>::empty());
            assert(payloads(self.main_image()) == sv);
            assert(self.contents() =~= payloads(self.main_image()));
            lemma_add_to_multiset(
                payloads(old(self).buffer_image()),
                payloads(old(self).main_image()),
            );
            assert(self.contents().to_multiset() =~= old(self).contents().to_multiset());
            assert(sorted_keys(&self.key_fn(), payloads(self.main_image())));
            assert(all_round_trip(payloads(self.main_image())));
        }
    }

    /// The first stored payload found whose key equals `target`: the buffer
    /// is scanned in full first, then the main store is probed by the
    /// positional search. The probe is a heuristic: over a main store whose
    /// block numbers track record ranks only loosely it can miss a matching
    /// record, so `None` does not prove absence; any returned payload does
    /// match.
    #[verifier::loop_isolation(false)]
    pub fn first(&self, target: u64) -> (r: Option<Vec<u8>>)
        requires
            self.wf(),
        ensures
            r matches Some(v) ==> self.key_fn().key_spec(v@) == target && self.contents().contains(
                v@,
            ),
            r is None ==> forall|i: int|
                0 <= i < payloads(self.buffer_image()).len() ==> self.key_fn().key_spec(
                    #[trigger] payloads(self.buffer_image())[i],
                ) != target,
            // buffer results take precedence: when any buffered record
            // matches, the earliest one (in block order) is the result
            matching(&self.key_fn(), target, payloads(self.buffer_image())).len() > 0 ==> (
            r matches Some(v) && v@ == matching(
                &self.key_fn(),
                target,
                payloads(self.buffer_image()),
            )[0]),
    {
        let nb = self.unordered_buffer.blocks();
        let mut b: u64 = 0;
        while b < nb
            invariant
                0 <= b <= nb,
                forall|i: int|
                    0 <= i < records(self.buffer_image()).len() && (#[trigger] records(
                        self.buffer_image(),
                    )[i]).0 < b ==> self.key_fn().key_spec(records(self.buffer_image())[i].1)
                        != target,
                matching(
                    &self.key_fn(),
                    target,
                    payloads_upto(self.buffer_image(), b as int),
                ) == Seq::<Seq<u8>>::empty(),
            decreases nb - b,
        {
            let ghost bv = self.buffer_image();
            match self.unordered_buffer.read(b) {
                Ok(data) => {
                    let k = self.extract_order_field.key(&data);
                    if k == target {
                        proof {
                            lemma_read_in_records(self.buffer_image(), b);
                            let i = crate::protocol::records_upto(
                                self.buffer_image(),
                                b as int,
                            ).len() as int;
                            assert(self.contents()[i] == data@);
                            // the earliest match: every record below this
                            // block missed, so the full match list starts
                            // with this payload
                            lemma_payloads_upto_step(bv, b as int);
                            lemma_matching_push(
                                &self.key_fn(),
                                target,
                                payloads_upto(bv, b as int),
                                data@,
                            );
                            assert(matching(
                                &self.key_fn(),
                                target,
                                payloads_upto(bv, b as int + 1),
                            ) =~= Seq::<Seq<u8>>::empty().push(data@));
                            crate::protocol::lemma_records_upto_prefix(bv, b as int + 1, nb as int);
                            let ext = payloads(bv).skip(
                                payloads_upto(bv, b as int + 1).len() as int,
                            );
                            assert(payloads(bv) =~= payloads_upto(bv, b as int + 1) + ext);
                            lemma_matching_prefix(
                                &self.key_fn(),
                                target,
                                payloads_upto(bv, b as int + 1),
                                ext,
                            );
                            assert(matching(
                                &self.key_fn(),
                                target,
                                payloads_upto(bv, b as int + 1),
                            ).len() == 1);
                            assert(matching(&self.key_fn(), target, payloads(bv)) == matching(
                                &self.key_fn(),
                                target,
                                payloads_upto(bv, b as int + 1) + ext,
                            ));
                            assert(matching(
                                &self.key_fn(),
                                target,
                                payloads_upto(bv, b as int + 1) + ext,
                            ).take(1)[0] == matching(
                                &self.key_fn(),
                                target,
                                payloads_upto(bv, b as int + 1),
                            )[0]);
                            assert(matching(&self.key_fn(), target, payloads(bv))[0] == data@);
                        }
                        return Some(data);
                    }
                    proof {
                        lemma_scanned_head(bv, b, target, &self.key_fn(), data@);
                        lemma_payloads_upto_step(bv, b as int);
                        lemma_matching_push(
                            &self.key_fn(),
                            target,
                            payloads_upto(bv, b as int),
                            data@,
                        );
                    }
                },
                Err(_) => {
                    proof {
                        lemma_scanned_none(bv, b, target, &self.key_fn());
                        lemma_payloads_upto_step(bv, b as int);
                    }
                },
            }
            b = b + 1;
        }
        proof {
            assert(matching(&self.key_fn(), target, payloads(self.buffer_image())) == matching(
                &self.key_fn(),
                target,
                payloads_upto(self.buffer_image(), nb as int),
            ));
            crate::protocol::lemma_records_heads(self.buffer_image(), num_blocks(
                self.buffer_image(),
            ));
            assert forall|i: int|
                0 <= i < payloads(self.buffer_image()).len() implies self.key_fn().key_spec(
                #[trigger] payloads(self.buffer_image())[i],
            ) != target by {
                assert(payloads(self.buffer_image())[i] == records(self.buffer_image())[i].1);
                assert(read_result(
                    self.buffer_image(),
                    records(self.buffer_image())[i].0 as int,
                ) == Ok::<Seq<u8>, crate::Error>(records(self.buffer_image())[i].1) && records(
                    self.buffer_image(),
                )[i].0 < num_blocks(self.buffer_image()));
            }
        }
        let blocks = self.main.blocks();
        let mut block: u64 = blocks / 2;
        let mut found = false;
        let mut going_right = true;
        let mut fuel: u64 = blocks * 2 + 8;
        while fuel > 0
            invariant
                0 <= block <= blocks,
                blocks == num_blocks(self.main_image()),
            decreases fuel,
        {
            fuel = fuel - 1;
            match self.main.read(block) {
                Ok(data) => {
                    found = true;
                    let k = self.extract_order_field.key(&data);
                    if k == target {
                        proof {
                            lemma_read_in_records(self.main_image(), block);
                            let i = crate::protocol::records_upto(
                                self.main_image(),
                                block as int,
                            ).len() as int;
                            assert(payloads(self.main_image())[i] == data@);
                            assert(self.contents()[payloads(self.buffer_image()).len() + i]
                                == data@);
                        }
                        return Some(data);
                    } else if k < target {
                        going_right = true;
                        if block == blocks {
                            return None;
                        }
                        block = block + (blocks - block) / 2;
                    } else {
                        going_right = false;
                        if block == 0 {
                            return None;
                        }
                        block = block - block / 2;
                    }
                },
                Err(_) => {
                    if !going_right {
                        if block == 0 {
                            return None;
                        }
                        block = block - 1;
                    } else {
                        if block == blocks {
                            if found {
                                return None;
                            }
                            going_right = false;
                            block = blocks / 2;
                        } else {
                            block = block + 1;
                        }
                    }
                },
            }
        }
        None
    }

    /// All stored payloads the search finds whose key equals `target`: the
    /// buffer is scanned in full, then the main store is probed by the
    /// positional search, stepping once past each hit to keep looking
    /// nearby. As with `first`, the probe can miss matches in the main
    /// store; everything returned does match.
    #[verifier::loop_isolation(false)]
    pub fn filter(&self, target: u64) -> (r: Vec<Vec<u8>>)
        requires
            self.wf(),
        ensures
            forall|i: int|
                0 <= i < r@.len() ==> self.key_fn().key_spec(#[trigger] views_of(r@)[i]) == target
                    && self.contents().contains(views_of(r@)[i]),
            forall|i: int|
                0 <= i < payloads(self.buffer_image()).len() && self.key_fn().key_spec(
                    #[trigger] payloads(self.buffer_image())[i],
                ) == target ==> views_of(r@).contains(payloads(self.buffer_image())[i]),
            // the buffer's matches come first, complete and in block order;
            // whatever follows was probed out of the main store
            views_of(r@).len() >= matching(
                &self.key_fn(),
                target,
                payloads(self.buffer_image()),
            ).len(),
            views_of(r@).take(
                matching(&self.key_fn(), target, payloads(self.buffer_image())).len() as int,
            ) == matching(&self.key_fn(), target, payloads(self.buffer_image())),
            forall|i: int|
                matching(&self.key_fn(), target, payloads(self.buffer_image())).len() <= i
                    < views_of(r@).len() ==> payloads(self.main_image()).contains(
                    #[trigger] views_of(r@)[i],
                ),
    {
        let mut out: Vec<Vec<u8>> = Vec::new();
        let nb = self.unordered_buffer.blocks();
        let mut b: u64 = 0;
        while b < nb
            invariant
                0 <= b <= nb,
                forall|i: int|
                    0 <= i < out@.len() ==> self.key_fn().key_spec(#[trigger] views_of(out@)[i])
                        == target && self.contents().contains(views_of(out@)[i]),
                forall|i: int|
                    0 <= i < records(self.buffer_image()).len() && (#[trigger] records(
                        self.buffer_image(),
                    )[i]).0 < b && self.key_fn().key_spec(records(self.buffer_image())[i].1)
                        == target ==> views_of(out@).contains(records(self.buffer_image())[i].1),
                views_of(out@) == matching(
                    &self.key_fn(),
                    target,
                    payloads_upto(self.buffer_image(), b as int),
                ),
            decreases nb - b,
        {
            let ghost bv = self.buffer_image();
            match self.unordered_buffer.read(b) {
                Ok(data) => {
                    let k = self.extract_order_field.key(&data);
                    if k == target {
                        proof {
                            lemma_read_in_records(self.buffer_image(), b);
                            let i = crate::protocol::records_upto(
                                self.buffer_image(),
                                b as int,
                            ).len() as int;
                            assert(self.contents()[i] == data@);
                        }
                        let ghost out0 = out@;
                        out.push(data);
                        proof {
                            assert(forall|i: int|
                                0 <= i < out0.len() ==> #[trigger] views_of(out@)[i] == views_of(
                                    out0,
                                )[i]);
                            lemma_still_collected(
                                bv,
                                target,
                                &self.key_fn(),
                                views_of(out0),
                                views_of(out@),
                                b,
                            );
                            assert(views_of(out@)[views_of(out0).len() as int] == data@);
                            assert(views_of(out@).contains(data@));
                            lemma_collected_head(
                                bv,
                                b,
                                target,
                                &self.key_fn(),
                                data@,
                                views_of(out@),
                            );
                            lemma_payloads_upto_step(bv, b as int);
                            lemma_matching_push(
                                &self.key_fn(),
                                target,
                                payloads_upto(bv, b as int),
                                data@,
                            );
                            assert(views_of(out@) =~= matching(
                                &self.key_fn(),
                                target,
                                payloads_upto(bv, b as int + 1),
                            ));
                        }
                    } else {
                        proof {
                            lemma_collected_head(
                                bv,
                                b,
                                target,
                                &self.key_fn(),
                                data@,
                                views_of(out@),
                            );
                            lemma_payloads_upto_step(bv, b as int);
                            lemma_matching_push(
                                &self.key_fn(),
                                target,
                                payloads_upto(bv, b as int),
                                data@,
                            );
                        }
                    }
                },
                Err(_) => {
                    proof {
                        lemma_collected_none(bv, b, target, &self.key_fn(), views_of(out@));
                        lemma_payloads_upto_step(bv, b as int);
                    }
                },
            }
            b = b + 1;
        }
        proof {
            assert(payloads_upto(self.buffer_image(), nb as int) == payloads(
                self.buffer_image(),
            ));
            assert(views_of(out@).take(
                matching(&self.key_fn(), target, payloads(self.buffer_image())).len() as int,
            ) =~= matching(&self.key_fn(), target, payloads(self.buffer_image())));
        }
        let ghost bufm = matching(&self.key_fn(), target, payloads(self.buffer_image()));
        let blocks = self.main.blocks();
        let mut block: u64 = blocks / 2;
        let mut found = false;
        let mut going_right = true;
        let mut fuel: u64 = blocks * 2 + 8;
        while fuel > 0
            invariant
                0 <= block <= blocks,
                blocks == num_blocks(self.main_image()),
                forall|i: int|
                    0 <= i < out@.len() ==> self.key_fn().key_spec(#[trigger] views_of(out@)[i])
                        == target && self.contents().contains(views_of(out@)[i]),
                forall|i: int|
                    0 <= i < records(self.buffer_image()).len() && (#[trigger] records(
                        self.buffer_image(),
                    )[i]).0 < nb && self.key_fn().key_spec(records(self.buffer_image())[i].1)
                        == target ==> views_of(out@).contains(records(self.buffer_image())[i].1),
                views_of(out@).len() >= bufm.len(),
                views_of(out@).take(bufm.len() as int) == bufm,
                forall|i: int|
                    bufm.len() <= i < views_of(out@).len() ==> payloads(
                        self.main_image(),
                    ).contains(#[trigger] views_of(out@)[i]),
            decreases fuel,
        {
            fuel = fuel - 1;
            match self.main.read(block) {
                Ok(data) => {
                    found = true;
                    let k = self.extract_order_field.key(&data);
                    if k == target {
                        proof {
                            lemma_read_in_records(self.main_image(), block);
                            let i = crate::protocol::records_upto(
                                self.main_image(),
                                block as int,
                            ).len() as int;
                            assert(payloads(self.main_image())[i] == data@);
                            assert(self.contents()[payloads(self.buffer_image()).len() + i]
                                == data@);
                        }
                        let ghost out0 = out@;
                        out.push(data);
                        proof {
                            assert(forall|i: int|
                                0 <= i < out0.len() ==> #[trigger] views_of(out@)[i] == views_of(
                                    out0,
                                )[i]);
                            lemma_still_collected(
                                self.buffer_image(),
                                target,
                                &self.key_fn(),
                                views_of(out0),
                                views_of(out@),
                                nb,
                            );
                            assert(views_of(out0).len() >= bufm.len());
                            assert forall|j: int| 0 <= j < bufm.len() implies views_of(
                                out@,
                            ).take(bufm.len() as int)[j] == views_of(out0).take(
                                bufm.len() as int,
                            )[j] by {
                                assert(views_of(out@)[j] == views_of(out0)[j]);
                            }
                            assert(views_of(out@).take(bufm.len() as int) =~= views_of(
                                out0,
                            ).take(bufm.len() as int));
                            assert(payloads(self.main_image()).contains(data@));
                        }
                        // records of one key sit together in a sorted main
                        // store: walk outward from the hit while the key
                        // still matches, then stop
                        let mut lb = block;
                        while lb > 0
                            invariant
                                0 <= lb <= blocks,
                                blocks == num_blocks(self.main_image()),
                                forall|i: int|
                                    0 <= i < out@.len() ==> self.key_fn().key_spec(
                                        #[trigger] views_of(out@)[i],
                                    ) == target && self.contents().contains(views_of(out@)[i]),
                                forall|i: int|
                                    0 <= i < records(self.buffer_image()).len() && (
                                    #[trigger] records(self.buffer_image())[i]).0 < nb
                                        && self.key_fn().key_spec(
                                        records(self.buffer_image())[i].1,
                                    ) == target ==> views_of(out@).contains(
                                        records(self.buffer_image())[i].1,
                                    ),
                                views_of(out@).len() >= bufm.len(),
                                views_of(out@).take(bufm.len() as int) == bufm,
                                forall|i: int|
                                    bufm.len() <= i < views_of(out@).len() ==> payloads(
                                        self.main_image(),
                                    ).contains(#[trigger] views_of(out@)[i]),
                            decreases lb,
                        {
                            lb = lb - 1;
                            match self.main.read(lb) {
                                Ok(d2) => {
                                    let k2 = self.extract_order_field.key(&d2);
                                    if k2 == target {
                                        proof {
                                            lemma_read_in_records(self.main_image(), lb);
                                            let i = crate::protocol::records_upto(
                                                self.main_image(),
                                                lb as int,
                                            ).len() as int;
                                            assert(payloads(self.main_image())[i] == d2@);
                                            assert(self.contents()[payloads(
                                                self.buffer_image(),
                                            ).len() + i] == d2@);
                                        }
                                        let ghost outl = out@;
                                        out.push(d2);
                                        proof {
                                            assert(forall|i: int|
                                                0 <= i < outl.len() ==> #[trigger] views_of(
                                                    out@,
                                                )[i] == views_of(outl)[i]);
                                            lemma_still_collected(
                                                self.buffer_image(),
                                                target,
                                                &self.key_fn(),
                                                views_of(outl),
                                                views_of(out@),
                                                nb,
                                            );
                                            assert(views_of(outl).len() >= bufm.len());
                                            assert forall|j: int|
                                                0 <= j < bufm.len() implies views_of(out@).take(
                                                bufm.len() as int,
                                            )[j] == views_of(outl).take(bufm.len() as int)[j] by {
                                                assert(views_of(out@)[j] == views_of(outl)[j]);
                                            }
                                            assert(views_of(out@).take(bufm.len() as int)
                                                =~= views_of(outl).take(bufm.len() as int));
                                            assert(payloads(self.main_image()).contains(d2@));
                                        }
                                    } else {
                                        break ;
                                    }
                                },
                                Err(_) => {},
                            }
                        }
                        let mut rb = block;
                        while rb < blocks
                            invariant
                                0 <= rb <= blocks,
                                blocks == num_blocks(self.main_image()),
                                forall|i: int|
                                    0 <= i < out@.len() ==> self.key_fn().key_spec(
                                        #[trigger] views_of(out@)[i],
                                    ) == target && self.contents().contains(views_of(out@)[i]),
                                forall|i: int|
                                    0 <= i < records(self.buffer_image()).len() && (
                                    #[trigger] records(self.buffer_image())[i]).0 < nb
                                        && self.key_fn().key_spec(
                                        records(self.buffer_image())[i].1,
                                    ) == target ==> views_of(out@).contains(
                                        records(self.buffer_image())[i].1,
                                    ),
                                views_of(out@).len() >= bufm.len(),
                                views_of(out@).take(bufm.len() as int) == bufm,
                                forall|i: int|
                                    bufm.len() <= i < views_of(out@).len() ==> payloads(
                                        self.main_image(),
                                    ).contains(#[trigger] views_of(out@)[i]),
                            decreases blocks - rb,
                        {
                            rb = rb + 1;
                            if rb == blocks {
                                break ;
                            }
                            match self.main.read(rb) {
                                Ok(d2) => {
                                    let k2 = self.extract_order_field.key(&d2);
                                    if k2 == target {
                                        proof {
                                            lemma_read_in_records(self.main_image(), rb);
                                            let i = crate::protocol::records_upto(
                                                self.main_image(),
                                                rb as int,
                                            ).len() as int;
                                            assert(payloads(self.main_image())[i] == d2@);
                                            assert(self.contents()[payloads(
                                                self.buffer_image(),
                                            ).len() + i] == d2@);
                                        }
                                        let ghost outr = out@;
                                        out.push(d2);
                                        proof {
                                            assert(forall|i: int|
                                                0 <= i < outr.len() ==> #[trigger] views_of(
                                                    out@,
                                                )[i] == views_of(outr)[i]);
                                            lemma_still_collected(
                                                self.buffer_image(),
                                                target,
                                                &self.key_fn(),
                                                views_of(outr),
                                                views_of(out@),
                                                nb,
                                            );
                                            assert(views_of(outr).len() >= bufm.len());
                                            assert forall|j: int|
                                                0 <= j < bufm.len() implies views_of(out@).take(
                                                bufm.len() as int,
                                            )[j] == views_of(outr).take(bufm.len() as int)[j] by {
                                                assert(views_of(out@)[j] == views_of(outr)[j]);
                                            }
                                            assert(views_of(out@).take(bufm.len() as int)
                                                =~= views_of(outr).take(bufm.len() as int));
                                            assert(payloads(self.main_image()).contains(d2@));
                                        }
                                    } else {
                                        break ;
                                    }
                                },
                                Err(_) => {},
                            }
                        }
                        break ;
                    } else if k < target {
                        going_right = true;
                        if block == blocks {
                            break ;
                        }
                        block = block + (blocks - block) / 2;
                    } else {
                        going_right = false;
                        if block == 0 {
                            break ;
                        }
                        block = block - block / 2;
                    }
                },
                Err(_) => {
                    if !going_right {
                        if block == 0 {
                            break ;
                        }
                        block = block - 1;
                    } else {
                        if block == blocks {
                            if found {
                                break ;
                            }
                            going_right = false;
                            block = blocks / 2;
                        } else {
                            block = block + 1;
                        }
                    }
                },
            }
        }
        proof {
            crate::protocol::lemma_records_heads(
                self.buffer_image(),
                num_blocks(self.buffer_image()),
            );
            assert forall|i: int|
                0 <= i < payloads(self.buffer_image()).len() && self.key_fn().key_spec(
                    #[trigger] payloads(self.buffer_image())[i],
                ) == target implies views_of(out@).contains(payloads(self.buffer_image())[i]) by {
                assert(payloads(self.buffer_image())[i] == records(self.buffer_image())[i].1);
                assert(read_result(
                    self.buffer_image(),
                    records(self.buffer_image())[i].0 as int,
                ) == Ok::<Seq<u8>, crate::Error>(records(self.buffer_image())[i].1) && records(
                    self.buffer_image(),
                )[i].0 < num_blocks(self.buffer_image()));
            }
        }
        out
    }

    /// Remove every stored payload the search finds whose key equals
    /// `target` and return them: the buffer is swept in full, then the main
    /// store is probed by the positional search, removing each hit and
    /// stepping once past it. The probe can miss matches in the main store.
    ///
    /// Deliberate deviation, stated here so nobody relies on the older
    /// behavior: the positional probe as classically specified for this
    /// store removes *every* record it visits, so records whose key did not
    /// match were destroyed without being returned. This method instead
    /// reads each probed record first and removes it only on a key match.
    /// The conservation clause below is the flag: everything removed is
    /// returned, matches the key, and nothing else leaves the store.
    #[verifier::loop_isolation(false)]
    #[verifier::rlimit(100)]
    pub fn remove(&mut self, target: u64) -> (r: Vec<Vec<u8>>)
        requires
            old(self).wf(),
        ensures
            final(self).wf(),
            final(self).key_fn() == old(self).key_fn(),
            forall|i: int|
                0 <= i < r@.len() ==> final(self).key_fn().key_spec(#[trigger] views_of(r@)[i])
                    == target,
            old(self).contents().to_multiset() == final(self).contents().to_multiset().add(
                views_of(r@).to_multiset(),
            ),
            forall|i: int|
                0 <= i < payloads(final(self).buffer_image()).len() ==> final(self).key_fn().key_spec(
                    #[trigger] payloads(final(self).buffer_image())[i],
                ) != target,
            // the buffer's matches leave first, complete and in block order;
            // whatever follows was removed from the main store
            views_of(r@).len() >= matching(
                &old(self).key_fn(),
                target,
                payloads(old(self).buffer_image()),
            ).len(),
            views_of(r@).take(
                matching(
                    &old(self).key_fn(),
                    target,
                    payloads(old(self).buffer_image()),
                ).len() as int,
            ) == matching(&old(self).key_fn(), target, payloads(old(self).buffer_image())),
    {
        let mut out: Vec<Vec<u8>> = Vec::new();
        proof {
            broadcast use group_to_multiset_ensures;

            assert(views_of(out@) =~= Seq::<Seq<u8>>::empty());
            assert(old(self).contents().to_multiset() =~= self.contents().to_multiset().add(
                views_of(out@).to_multiset(),
            ));
        }
        let nb = self.unordered_buffer.blocks();
        let mut b: u64 = 0;
        while b < nb
            invariant
                0 <= b <= nb,
                self.unordered_buffer.wf(),
                all_round_trip(payloads(self.buffer_image())),
                self.main == old(self).main,
                self.sort_temp == old(self).sort_temp,
                self.extract_order_field == old(self).extract_order_field,
                forall|i: int|
                    0 <= i < out@.len() ==> self.key_fn().key_spec(#[trigger] views_of(out@)[i])
                        == target,
                old(self).contents().to_multiset() == self.contents().to_multiset().add(
                    views_of(out@).to_multiset(),
                ),
                num_blocks(self.buffer_image()) == nb,
                forall|i: int|
                    0 <= i < records(self.buffer_image()).len() && (#[trigger] records(
                        self.buffer_image(),
                    )[i]).0 < b ==> self.key_fn().key_spec(records(self.buffer_image())[i].1)
                        != target,
                views_of(out@) == matching(
                    &self.key_fn(),
                    target,
                    payloads_upto(old(self).buffer_image(), b as int),
                ),
                forall|j: int|
                    b <= j ==> #[trigger] read_result(self.buffer_image(), j) == read_result(
                        old(self).buffer_image(),
                        j,
                    ) || (read_result(self.buffer_image(), j) is Err && read_result(
                        old(self).buffer_image(),
                        j,
                    ) is Err),
            decreases nb - b,
        {
            let ghost bvpre = self.buffer_image();
            match self.unordered_buffer.read(b) {
                Ok(data) => {
                    let k = self.extract_order_field.key(&data);
                    if k == target {
                        let ghost bv0 = self.buffer_image();
                        let ghost out0 = out@;
                        let rr = self.unordered_buffer.remove(b);
                        match rr {
                            Ok(p) => {
                                proof {
                                    lemma_add_to_multiset(
                                        payloads(bv0),
                                        payloads(self.main_image()),
                                    );
                                    lemma_removal_step(
                                        &self.key_fn(),
                                        bv0,
                                        self.buffer_image(),
                                        payloads(self.main_image()).to_multiset(),
                                        old(self).contents().to_multiset(),
                                        views_of(out0),
                                        b,
                                    );
                                    lemma_add_to_multiset(
                                        payloads(self.buffer_image()),
                                        payloads(self.main_image()),
                                    );
                                    lemma_sweep_step_removed(
                                        &self.key_fn(),
                                        bv0,
                                        self.buffer_image(),
                                        b,
                                        target,
                                    );
                                }
                                out.push(p);
                                proof {
                                    broadcast use group_to_multiset_ensures;

                                    assert(views_of(out@) =~= views_of(out0).push(p@));
                                    // the removed payload is the record the
                                    // entry-time buffer held at this block
                                    let obuf = old(self).buffer_image();
                                    assert(read_result(obuf, b as int) == Ok::<Seq<u8>, crate::Error>(
                                        p@,
                                    ));
                                    lemma_payloads_upto_step(obuf, b as int);
                                    lemma_matching_push(
                                        &self.key_fn(),
                                        target,
                                        payloads_upto(obuf, b as int),
                                        p@,
                                    );
                                    assert(views_of(out@) =~= matching(
                                        &self.key_fn(),
                                        target,
                                        payloads_upto(obuf, b as int + 1),
                                    ));
                                    // reads at and after the next block are
                                    // still the entry-time reads, or free
                                    // either way
                                    let e = run_end(bv0, b as int);
                                    crate::protocol::lemma_run_end_props(bv0, b as int);
                                    assert forall|j: int|
                                        b + 1 <= j implies #[trigger] read_result(
                                        self.buffer_image(),
                                        j,
                                    ) == read_result(obuf, j) || (read_result(
                                        self.buffer_image(),
                                        j,
                                    ) is Err && read_result(obuf, j) is Err) by {
                                        if b as int <= j < e {
                                            assert(read_result(self.buffer_image(), j)
                                                == Err::<Seq<u8>, crate::Error>(
                                                crate::Error::EmptyBlock,
                                            ));
                                            assert(crate::protocol::tag(bv0, j) == 2);
                                            assert(read_result(bv0, j) is Err);
                                            assert(read_result(obuf, j) is Err);
                                        } else {
                                            assert(read_result(self.buffer_image(), j)
                                                == read_result(bv0, j));
                                        }
                                    }
                                }
                            },
                            Err(_) => {
                                proof {
                                    assert(false);
                                }
                            },
                        }
                    } else {
                        proof {
                            lemma_scanned_head(bvpre, b, target, &self.key_fn(), data@);
                            let obuf = old(self).buffer_image();
                            assert(read_result(obuf, b as int) == Ok::<Seq<u8>, crate::Error>(
                                data@,
                            ));
                            lemma_payloads_upto_step(obuf, b as int);
                            lemma_matching_push(
                                &self.key_fn(),
                                target,
                                payloads_upto(obuf, b as int),
                                data@,
                            );
                        }
                    }
                },
                Err(_) => {
                    proof {
                        lemma_scanned_none(bvpre, b, target, &self.key_fn());
                        let obuf = old(self).buffer_image();
                        assert(read_result(obuf, b as int) is Err);
                        lemma_payloads_upto_step(obuf, b as int);
                    }
                },
            }
            b = b + 1;
        }
        proof {
            crate::protocol::lemma_records_heads(
                self.buffer_image(),
                num_blocks(self.buffer_image()),
            );
            assert forall|i: int|
                0 <= i < records(self.buffer_image()).len() implies self.key_fn().key_spec(
                (#[trigger] records(self.buffer_image())[i]).1,
            ) != target by {
                assert(read_result(
                    self.buffer_image(),
                    records(self.buffer_image())[i].0 as int,
                ) == Ok::<Seq<u8>, crate::Error>(records(self.buffer_image())[i].1) && records(
                    self.buffer_image(),
                )[i].0 < num_blocks(self.buffer_image()));
            }
            assert(payloads_upto(old(self).buffer_image(), nb as int) == payloads(
                old(self).buffer_image(),
            )) by {
                assert(num_blocks(old(self).buffer_image()) == nb);
            }
            assert(views_of(out@).take(
                matching(
                    &self.key_fn(),
                    target,
                    payloads(old(self).buffer_image()),
                ).len() as int,
            ) =~= matching(&self.key_fn(), target, payloads(old(self).buffer_image())));
        }
        let ghost bufm = matching(&self.key_fn(), target, payloads(old(self).buffer_image()));
        let blocks = self.main.blocks();
        let mut block: u64 = blocks / 2;
        let mut found = false;
        let mut going_right = true;
        let mut fuel: u64 = blocks * 2 + 8;
        while fuel > 0
            invariant
                0 <= block <= blocks,
                blocks == num_blocks(self.main_image()),
                self.unordered_buffer.wf(),
                self.main.wf(),
                all_round_trip(payloads(self.buffer_image())),
                all_round_trip(payloads(self.main_image())),
                sorted_keys(&self.key_fn(), payloads(self.main_image())),
                self.sort_temp == old(self).sort_temp,
                self.extract_order_field == old(self).extract_order_field,
                forall|i: int|
                    0 <= i < out@.len() ==> self.key_fn().key_spec(#[trigger] views_of(out@)[i])
                        == target,
                old(self).contents().to_multiset() == self.contents().to_multiset().add(
                    views_of(out@).to_multiset(),
                ),
                forall|i: int|
                    0 <= i < records(self.buffer_image()).len() ==> self.key_fn().key_spec(
                        (#[trigger] records(self.buffer_image())[i]).1,
                    ) != target,
                views_of(out@).len() >= bufm.len(),
                views_of(out@).take(bufm.len() as int) == bufm,
            decreases fuel,
        {
            fuel = fuel - 1;
            match self.main.read(block) {
                Ok(data) => {
                    found = true;
                    let k = self.extract_order_field.key(&data);
                    if k == target {
                        let ghost mv0 = self.main_image();
                        let ghost out0 = out@;
                        let rr = self.main.remove(block);
                        match rr {
                            Ok(p) => {
                                proof {
                                    lemma_add_to_multiset(
                                        payloads(self.buffer_image()),
                                        payloads(mv0),
                                    );
                                    assert(payloads(mv0).to_multiset().add(
                                        payloads(self.buffer_image()).to_multiset(),
                                    ) =~= payloads(self.buffer_image()).to_multiset().add(
                                        payloads(mv0).to_multiset(),
                                    ));
                                    lemma_removal_step(
                                        &self.key_fn(),
                                        mv0,
                                        self.main_image(),
                                        payloads(self.buffer_image()).to_multiset(),
                                        old(self).contents().to_multiset(),
                                        views_of(out0),
                                        block,
                                    );
                                    lemma_add_to_multiset(
                                        payloads(self.buffer_image()),
                                        payloads(self.main_image()),
                                    );
                                    assert(payloads(self.main_image()).to_multiset().add(
                                        payloads(self.buffer_image()).to_multiset(),
                                    ) =~= payloads(self.buffer_image()).to_multiset().add(
                                        payloads(self.main_image()).to_multiset(),
                                    ));
                                }
                                out.push(p);
                                proof {
                                    broadcast use group_to_multiset_ensures;

                                    assert(views_of(out@) =~= views_of(out0).push(p@));
                                    assert(views_of(out0).len() >= bufm.len());
                                    assert forall|j: int|
                                        0 <= j < bufm.len() implies views_of(out@).take(
                                        bufm.len() as int,
                                    )[j] == views_of(out0).take(bufm.len() as int)[j] by {
                                        assert(views_of(out@)[j] == views_of(out0)[j]);
                                    }
                                    assert(views_of(out@).take(bufm.len() as int) =~= views_of(
                                        out0,
                                    ).take(bufm.len() as int));
                                }
                            },
                            Err(_) => {
                                proof {
                                    assert(false);
                                }
                            },
                        }
                        if going_right {
                            if block == blocks {
                                break ;
                            }
                            block = block + 1;
                        } else {
                            if block == 0 {
                                break ;
                            }
                            block = block - 1;
                        }
                    } else if k < target {
                        going_right = true;
                        if block == blocks {
                            break ;
                        }
                        block = block + (blocks - block) / 2;
                    } else {
                        going_right = false;
                        if block == 0 {
                            break ;
                        }
                        block = block - block / 2;
                    }
                },
                Err(_) => {
                    if !going_right {
                        if block == 0 {
                            break ;
                        }
                        block = block - 1;
                    } else {
                        if block == blocks {
                            if found {
                                break ;
                            }
                            going_right = false;
                            block = blocks / 2;
                        } else {
                            block = block + 1;
                        }
                    }
                },
            }
        }
        proof {
            assert forall|i: int|
                0 <= i < payloads(self.buffer_image()).len() implies self.key_fn().key_spec(
                #[trigger] payloads(self.buffer_image())[i],
            ) != target by {
                assert(payloads(self.buffer_image())[i] == records(self.buffer_image())[i].1);
            }
        }
        out
    }

    /// The buffer store's raw bytes, for a layer that mirrors them to a
    /// file.
    pub fn buffer_bytes(&self) -> (r: &Vec<u8>)
        ensures
            r@ == self.buffer_image(),
    {
        self.unordered_buffer.bytes()
    }

    /// The main store's raw bytes, for a layer that mirrors them to a file.
    pub fn main_bytes(&self) -> (r: &Vec<u8>)
        ensures
            r@ == self.main_image(),
    {
        self.main.bytes()
    }

    /// Number of blocks across the buffer and main stores.
    pub fn blocks(&self) -> (r: u64)
        requires
            self.wf(),
        ensures
            r == num_blocks(self.buffer_image()) + num_blocks(self.main_image()),
    {
        let a = self.unordered_buffer.blocks();
        let b = self.main.blocks();
        a + b
    }
}

} // verus!
