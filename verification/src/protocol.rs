use vstd::prelude::*;
use vstd::multiset::Multiset;
use vstd::seq_lib::group_to_multiset_ensures;
use crate::error::Error;

verus! {

/// Each block carries an end marker byte right after its content, so a
/// decoder can tell where the trailing padding of a record's final block
/// starts.
pub const END_BYTE: u8 = 8;

/// Size in bytes of the fixed binary block the store deals with.
///
/// Smaller blocks mean more metadata per record (each block spends 2 bytes on
/// metadata); bigger blocks mean more padding in the final block of a record.
pub const BLOCK_SIZE: usize = 30;

/// Bytes of each block available for record content (2 bytes go to metadata).
pub const CONTENT_SIZE: usize = 28;

/// A block's first byte, saying how the block is to be interpreted.
///
/// `Empty` must be the zero byte: regions appended to a file image by
/// zero-filling are then free blocks with no further work.
#[derive(PartialEq, Eq, Copy, Clone, Structural)]
pub enum Metadata {
    Empty,
    Start,
    Continuation,
}

impl Metadata {
    /// The tag byte written at the first position of a block.
    pub open spec fn spec_byte(self) -> u8 {
        match self {
            Metadata::Empty => 0,
            Metadata::Start => 1,
            Metadata::Continuation => 2,
        }
    }

    /// The tag byte as an executable value.
    pub fn as_byte(self) -> (b: u8)
        ensures
            b == self.spec_byte(),
    {
        match self {
            Metadata::Empty => 0,
            Metadata::Start => 1,
            Metadata::Continuation => 2,
        }
    }

    /// The tag byte viewed as a character.
    pub open spec fn spec_char(self) -> char {
        match self {
            Metadata::Empty => '\u{0}',
            Metadata::Start => '\u{1}',
            Metadata::Continuation => '\u{2}',
        }
    }

    /// The tag byte as a character.
    pub fn as_char(self) -> (c: char)
        ensures
            c == self.spec_char(),
            c as u8 == self.spec_byte(),
    {
        match self {
            Metadata::Empty => '\u{0}',
            Metadata::Start => '\u{1}',
            Metadata::Continuation => '\u{2}',
        }
    }
}

/// Number of whole blocks of a byte image (the image length is kept an exact
/// multiple of `BLOCK_SIZE`).
pub open spec fn num_blocks(image: Seq<u8>) -> int {
    image.len() as int / (BLOCK_SIZE as int)
}

/// The metadata tag of block `b`. Blocks past the end of the image read as
/// `Empty`: extending an image is zero-filling.
pub open spec fn tag(image: Seq<u8>, b: int) -> u8 {
    if 0 <= b && b < num_blocks(image) {
        image[b * 30]
    } else {
        0
    }
}

/// Number of blocks a record of `l` content bytes occupies (rounded up).
pub open spec fn needed_blocks(l: int) -> int {
    if l <= 0 {
        0
    } else {
        (l - 1) / 28 + 1
    }
}

/// First block at or after `e` that does not carry a `Continuation` tag (or
/// the end of the image). Walking from a record's start block plus one, this
/// is where the record's run of blocks ends.
pub open spec fn run_end_from(image: Seq<u8>, e: int) -> int
    decreases num_blocks(image) - e,
{
    if e < 0 || e >= num_blocks(image) || tag(image, e) != 2 {
        e
    } else {
        run_end_from(image, e + 1)
    }
}

/// End of the block run of a record starting at block `b`.
pub open spec fn run_end(image: Seq<u8>, b: int) -> int {
    run_end_from(image, b + 1)
}

/// The content bytes of one block: the `CONTENT_SIZE` bytes after the tag
/// (the block's last byte is skipped by decoding).
pub open spec fn block_content(image: Seq<u8>, b: int) -> Seq<u8> {
    Seq::new(28, |o: int| image[b * 30 + 1 + o])
}

/// The content bytes a decoder accumulates over blocks `[s, e)`.
pub open spec fn content_bytes(image: Seq<u8>, s: int, e: int) -> Seq<u8>
    decreases e - s,
{
    if s >= e {
        Seq::<u8>::empty()
    } else {
        content_bytes(image, s, e - 1) + block_content(image, e - 1)
    }
}

/// Drop trailing `Empty` (zero) bytes.
pub open spec fn strip_zeros(s: Seq<u8>) -> Seq<u8>
    decreases s.len(),
{
    if s.len() > 0 && s.last() == 0 {
        strip_zeros(s.drop_last())
    } else {
        s
    }
}

/// Recover a record's payload from accumulated content bytes: drop the
/// trailing padding, then one trailing end marker if present.
pub open spec fn strip_payload(s: Seq<u8>) -> Seq<u8> {
    let t = strip_zeros(s);
    if t.len() > 0 && t.last() == END_BYTE {
        t.drop_last()
    } else {
        t
    }
}

/// What decoding from block `b` of `image` yields: the payload of the record
/// starting there, or the error saying why no record starts there.
pub open spec fn read_result(image: Seq<u8>, b: int) -> Result<Seq<u8>, Error> {
    if tag(image, b) == 0 {
        Err(Error::EmptyBlock)
    } else if tag(image, b) != 1 {
        Err(Error::ContinuationBlock)
    } else {
        Ok(strip_payload(content_bytes(image, b, run_end(image, b))))
    }
}

/// Byte `o` of block `b` (both relative to the record) of the framed form of
/// a record with payload `raw`: the tag, the block's chunk of the payload,
/// the end marker, then zero padding.
pub open spec fn frame_at(raw: Seq<u8>, b: int, o: int) -> u8 {
    let chunk_len = if raw.len() - b * 28 < 28 {
        raw.len() - b * 28
    } else {
        28
    };
    if o == 0 {
        if b == 0 {
            1
        } else {
            2
        }
    } else if o - 1 < chunk_len {
        raw[b * 28 + (o - 1)]
    } else if o - 1 == chunk_len {
        END_BYTE
    } else {
        0
    }
}

/// The content bytes a decoder accumulates over a freshly framed record: the
/// payload itself when it fills its blocks exactly, else the payload, the end
/// marker, and zero padding up to the content capacity of its blocks.
pub open spec fn padded(raw: Seq<u8>) -> Seq<u8> {
    if raw.len() % 28 == 0 {
        raw
    } else {
        raw + seq![END_BYTE] + Seq::new(
            (needed_blocks(raw.len() as int) * 28 - raw.len() - 1) as nat,
            |i: int| 0u8,
        )
    }
}

/// A payload round-trips through framing untouched unless it fills its final
/// block exactly and ends in a byte the decoder strips (padding or marker).
pub open spec fn round_trips(raw: Seq<u8>) -> bool {
    raw.len() > 0 && (raw.len() % 28 != 0 || (raw.last() != 0 && raw.last() != END_BYTE))
}

/// No `Continuation` block directly follows an `Empty` block: every
/// `Continuation` block belongs to the record it continues. Images produced
/// by the store keep this shape.
pub open spec fn well_framed(image: Seq<u8>) -> bool {
    forall|b: int|
        0 <= b && b + 1 < num_blocks(image) && tag(image, b) == 0 ==> #[trigger] tag(
            image,
            b + 1,
        ) != 2
}

/// The records of the image among blocks `[0, b)`, each a pair of starting
/// block and payload, in ascending block order.
pub open spec fn records_upto(image: Seq<u8>, b: int) -> Seq<(u64, Seq<u8>)>
    decreases b,
{
    if b <= 0 {
        Seq::<(u64, Seq<u8>)>::empty()
    } else {
        let r = records_upto(image, b - 1);
        match read_result(image, b - 1) {
            Ok(p) => r.push((((b - 1) as u64), p)),
            Err(_) => r,
        }
    }
}

/// All records of the image, in ascending block order.
pub open spec fn records(image: Seq<u8>) -> Seq<(u64, Seq<u8>)> {
    records_upto(image, num_blocks(image))
}

/// An image brought to whole blocks: zero-fill up to the next multiple of
/// `BLOCK_SIZE` (appended bytes read as `Empty`).
pub open spec fn pad_blocks(s: Seq<u8>) -> Seq<u8> {
    s + Seq::new(((30 - s.len() as int % 30) % 30) as nat, |i: int| 0u8)
}

/// Blocks `[off, off + len)` are a maximal contiguous run of `Empty` blocks
/// of the image: all free, bounded by records (or the image's ends).
pub open spec fn maximal_empty_run(v: Seq<u8>, off: int, len: int) -> bool {
    &&& 0 <= off
    &&& 1 <= len
    &&& off + len <= num_blocks(v)
    &&& forall|b: int| off <= b < off + len ==> #[trigger] tag(v, b) == 0
    &&& (off == 0 || tag(v, off - 1) != 0)
    &&& (off + len == num_blocks(v) || tag(v, off + len) != 0)
}

/// Zero-filling an image with more whole blocks changes no block's decode
/// result: the new blocks are `Empty`, and a record run that ended at the old
/// image's end still ends there.
pub proof fn lemma_extend_effect(v0: Seq<u8>, vf: Seq<u8>)
    requires
        v0.len() as int % 30 == 0,
        vf.len() as int % 30 == 0,
        vf.len() >= v0.len(),
        forall|j: int| 0 <= j < v0.len() ==> #[trigger] vf[j] == v0[j],
        forall|j: int| v0.len() <= j < vf.len() ==> #[trigger] vf[j] == 0,
    ensures
        forall|b: int| #[trigger] tag(vf, b) == tag(v0, b),
        forall|b: int| 0 <= b ==> #[trigger] read_result(vf, b) == read_result(v0, b),
        well_framed(v0) ==> well_framed(vf),
{
    let nb0 = num_blocks(v0);
    let nbf = num_blocks(vf);
    assert(nb0 * 30 == v0.len());
    assert(nbf * 30 == vf.len());
    assert forall|b: int| #[trigger] tag(vf, b) == tag(v0, b) by {
        if 0 <= b && b < nbf {
            if b < nb0 {
                assert(vf[b * 30] == v0[b * 30]);
            } else {
                assert(v0.len() <= b * 30 < vf.len());
                assert(vf[b * 30] == 0);
            }
        }
    }
    assert forall|b: int| 0 <= b implies #[trigger] read_result(vf, b) == read_result(v0, b) by {
        if tag(v0, b) == 1 {
            let e0 = run_end(v0, b);
            lemma_run_end_props(v0, b);
            assert(b < nb0 && e0 <= nb0);
            assert(run_end(vf, b) == e0) by {
                assert forall|j: int| b < j < e0 implies #[trigger] tag(vf, j) == 2 by {
                    assert(tag(v0, j) == 2);
                }
                if e0 < nbf {
                    assert(tag(vf, e0) == tag(v0, e0));
                    if e0 == nb0 {
                        assert(tag(v0, e0) == 0);
                    }
                    assert(tag(vf, e0) != 2);
                }
                lemma_run_end_at(vf, b, e0);
            }
            assert(content_bytes(vf, b, e0) == content_bytes(v0, b, e0)) by {
                assert forall|j: int| b * 30 <= j < e0 * 30 implies #[trigger] byte_eq(
                    vf,
                    v0,
                    j,
                ) by {
                    assert(0 <= j < v0.len());
                    assert(vf[j] == v0[j]);
                }
                lemma_content_bytes_congruence(vf, v0, b, e0);
            }
        }
    }
}

/// Records gathered over a longer block prefix extend those over a shorter
/// one.
pub proof fn lemma_records_upto_prefix(image: Seq<u8>, b1: int, b2: int)
    requires
        b1 <= b2,
    ensures
        records_upto(image, b1).len() <= records_upto(image, b2).len(),
        forall|i: int|
            0 <= i < records_upto(image, b1).len() ==> #[trigger] records_upto(image, b2)[i]
                == records_upto(image, b1)[i],
    decreases b2 - b1,
{
    if b1 < b2 {
        lemma_records_upto_prefix(image, b1, b2 - 1);
    }
}

/// Records gathered up to `b` do not change once `b` passes every block that
/// decodes to a record.
pub proof fn lemma_records_upto_stable(image: Seq<u8>, b1: int, b2: int)
    requires
        num_blocks(image) <= b1 <= b2,
    ensures
        records_upto(image, b2) == records_upto(image, b1),
    decreases b2 - b1,
{
    if b1 < b2 {
        lemma_records_upto_stable(image, b1, b2 - 1);
        assert(tag(image, b2 - 1) == 0);
    }
}

/// Two images whose blocks decode alike up to `b` have the same records up
/// to `b`.
pub proof fn lemma_records_upto_congruence(im1: Seq<u8>, im2: Seq<u8>, b: int)
    requires
        forall|j: int| 0 <= j < b ==> #[trigger] read_result(im2, j) == read_result(im1, j),
    ensures
        records_upto(im2, b) == records_upto(im1, b),
    decreases b,
{
    if b > 0 {
        lemma_records_upto_congruence(im1, im2, b - 1);
    }
}

/// When one new record appears at blocks `[s, e)` of a formerly free region
/// and nothing else changes, the record list gains exactly that record, at
/// the position block order gives it.
pub proof fn lemma_records_insert(im1: Seq<u8>, im2: Seq<u8>, s: u64, e: int, p: Seq<u8>, b: int)
    requires
        0 <= s < e,
        e <= b,
        forall|j: int|
            0 <= j && !(s <= j < e) ==> #[trigger] read_result(im2, j) == read_result(im1, j),
        forall|j: int| s < j < e ==> #[trigger] read_result(im2, j) is Err,
        forall|j: int| s <= j < e ==> #[trigger] read_result(im1, j) is Err,
        read_result(im2, s as int) == Ok::<Seq<u8>, Error>(p),
    ensures
        records_upto(im2, b) == records_upto(im1, b).insert(
            records_upto(im1, s as int).len() as int,
            (s, p),
        ),
        records_upto(im1, s as int).len() <= records_upto(im1, b).len(),
    decreases b,
{
    lemma_records_upto_prefix(im1, s as int, b);
    let pos = records_upto(im1, s as int).len() as int;
    if b == e {
        lemma_records_upto_congruence(im1, im2, s as int);
        assert(records_upto(im2, s as int + 1) == records_upto(im1, s as int).push((s, p)));
        // blocks in (s, e) add nothing on either side
        lemma_records_err_range(im1, s as int, s as int, e);
        lemma_records_err_range(im2, s as int + 1, s as int + 1, e);
        assert(records_upto(im1, e) == records_upto(im1, s as int));
        assert(records_upto(im2, e) == records_upto(im1, s as int).push((s, p)));
        assert(records_upto(im1, e).insert(pos, (s, p)) =~= records_upto(im1, s as int).push(
            (s, p),
        ));
    } else {
        lemma_records_insert(im1, im2, s, e, p, b - 1);
        lemma_records_upto_prefix(im1, s as int, b - 1);
        match read_result(im1, b - 1) {
            Ok(q) => {
                assert(read_result(im2, b - 1) == read_result(im1, b - 1)) by {
                    assert(!(s <= b - 1 < e));
                }
                assert(records_upto(im1, b).insert(pos, (s, p)) =~= records_upto(
                    im1,
                    b - 1,
                ).insert(pos, (s, p)).push((((b - 1) as u64), q)));
            },
            Err(_) => {
                assert(read_result(im2, b - 1) == read_result(im1, b - 1)) by {
                    assert(!(s <= b - 1 < e));
                }
            },
        }
    }
}

/// Blocks that decode to errors contribute no records.
pub proof fn lemma_records_err_range(image: Seq<u8>, base: int, b1: int, b2: int)
    requires
        base <= b1 <= b2,
        records_upto(image, b1) == records_upto(image, base),
        forall|j: int| b1 <= j < b2 ==> #[trigger] read_result(image, j) is Err,
    ensures
        records_upto(image, b2) == records_upto(image, base),
    decreases b2 - b1,
{
    if b1 < b2 {
        assert(read_result(image, b1) is Err);
        lemma_records_err_range(image, base, b1 + 1, b2);
    }
}

/// When the record at blocks `[s, e)` is freed and nothing else changes, the
/// record list loses exactly that record.
pub proof fn lemma_records_remove(im1: Seq<u8>, im2: Seq<u8>, s: u64, e: int, b: int)
    requires
        0 <= s < e,
        e <= b,
        forall|j: int|
            0 <= j && !(s <= j < e) ==> #[trigger] read_result(im2, j) == read_result(im1, j),
        forall|j: int| s <= j < e ==> #[trigger] read_result(im2, j) is Err,
        forall|j: int| s < j < e ==> #[trigger] read_result(im1, j) is Err,
        read_result(im1, s as int) is Ok,
    ensures
        records_upto(im2, b) == records_upto(im1, b).remove(
            records_upto(im1, s as int).len() as int,
        ),
        records_upto(im1, s as int).len() < records_upto(im1, b).len(),
    decreases b,
{
    lemma_records_upto_prefix(im1, s as int + 1, b);
    let pos = records_upto(im1, s as int).len() as int;
    if b == e {
        lemma_records_upto_congruence(im1, im2, s as int);
        lemma_records_err_range(im2, s as int, s as int, e);
        lemma_records_err_range(im1, s as int + 1, s as int + 1, e);
        assert(records_upto(im2, e) == records_upto(im1, s as int));
        let pm = records_upto(im1, s as int + 1);
        assert(pm == records_upto(im1, s as int).push(
            (s, read_result(im1, s as int)->Ok_0),
        ));
        assert(records_upto(im1, e) == pm);
        assert(records_upto(im1, e).remove(pos) =~= records_upto(im1, s as int));
    } else {
        lemma_records_remove(im1, im2, s, e, b - 1);
        lemma_records_upto_prefix(im1, s as int + 1, b - 1);
        match read_result(im1, b - 1) {
            Ok(q) => {
                assert(read_result(im2, b - 1) == read_result(im1, b - 1)) by {
                    assert(!(s <= b - 1 < e));
                }
                assert(records_upto(im1, b).remove(pos) =~= records_upto(im1, b - 1).remove(
                    pos,
                ).push((((b - 1) as u64), q)));
            },
            Err(_) => {
                assert(read_result(im2, b - 1) == read_result(im1, b - 1)) by {
                    assert(!(s <= b - 1 < e));
                }
            },
        }
    }
}

/// The payloads of all records of the image, in ascending block order.
pub open spec fn payloads(image: Seq<u8>) -> Seq<Seq<u8>> {
    records(image).map_values(|r: (u64, Seq<u8>)| r.1)
}

/// A block that decodes to a payload stands, with it, in the record list.
pub proof fn lemma_read_in_records(image: Seq<u8>, b: u64)
    requires
        read_result(image, b as int) is Ok,
    ensures
        ({
            let i = records_upto(image, b as int).len() as int;
            &&& 0 <= i < records(image).len()
            &&& records(image)[i] == (b, read_result(image, b as int)->Ok_0)
        }),
{
    assert(tag(image, b as int) == 1);
    assert((b as int) < num_blocks(image));
    assert(records_upto(image, b as int + 1) == records_upto(image, b as int).push(
        (b, read_result(image, b as int)->Ok_0),
    ));
    lemma_records_upto_prefix(image, b as int + 1, num_blocks(image));
}

/// Every listed record decodes from its own head block.
pub proof fn lemma_records_heads(image: Seq<u8>, b: int)
    requires
        b <= u64::MAX,
    ensures
        forall|i: int|
            0 <= i < records_upto(image, b).len() ==> #[trigger] read_result(
                image,
                records_upto(image, b)[i].0 as int,
            ) == Ok::<Seq<u8>, Error>(records_upto(image, b)[i].1) && records_upto(image, b)[i].0
                < b,
    decreases b,
{
    if b > 0 {
        lemma_records_heads(image, b - 1);
        assert forall|i: int| 0 <= i < records_upto(image, b).len() implies #[trigger] read_result(
            image,
            records_upto(image, b)[i].0 as int,
        ) == Ok::<Seq<u8>, Error>(records_upto(image, b)[i].1) && records_upto(image, b)[i].0
            < b by {
            if i < records_upto(image, b - 1).len() {
                assert(records_upto(image, b)[i] == records_upto(image, b - 1)[i]);
                assert(read_result(image, records_upto(image, b - 1)[i].0 as int) == Ok::<
                    Seq<u8>,
                    Error,
                >(records_upto(image, b - 1)[i].1));
            } else {
                assert(records_upto(image, b)[i] == (((b - 1) as u64), read_result(
                    image,
                    b - 1,
                )->Ok_0));
            }
        }
    }
}

/// Records are listed in head order: an entry's position is below the count
/// of records over the first `b` blocks exactly when its head lies below
/// `b`.
pub proof fn lemma_records_split(image: Seq<u8>, b: int, n: int)
    requires
        0 <= b <= n <= u64::MAX,
    ensures
        forall|i: int|
            0 <= i < records_upto(image, n).len() ==> (i < records_upto(image, b).len() <==> (
            #[trigger] records_upto(image, n)[i]).0 < b),
    decreases n - b,
{
    if n == b {
        lemma_records_heads(image, b);
        assert forall|i: int|
            0 <= i < records_upto(image, n).len() implies (i < records_upto(image, b).len() <==> (
        #[trigger] records_upto(image, n)[i]).0 < b) by {
            assert(records_upto(image, n) == records_upto(image, b));
            assert(read_result(image, records_upto(image, b)[i].0 as int) == Ok::<Seq<u8>, Error>(
                records_upto(image, b)[i].1,
            ) && records_upto(image, b)[i].0 < b);
        }
    } else {
        lemma_records_split(image, b, n - 1);
        lemma_records_upto_prefix(image, b, n - 1);
        assert forall|i: int|
            0 <= i < records_upto(image, n).len() implies (i < records_upto(image, b).len() <==> (
        #[trigger] records_upto(image, n)[i]).0 < b) by {
            if i < records_upto(image, n - 1).len() {
                assert(records_upto(image, n)[i] == records_upto(image, n - 1)[i]);
            } else {
                assert(records_upto(image, n)[i] == (((n - 1) as u64), read_result(
                    image,
                    n - 1,
                )->Ok_0));
            }
        }
    }
}

/// `lemma_records_insert`, taken to the full record lists of both images.
pub proof fn lemma_records_insert_full(im1: Seq<u8>, im2: Seq<u8>, s: u64, e: int, p: Seq<u8>)
    requires
        0 <= s < e,
        e <= num_blocks(im2) || e <= num_blocks(im1),
        forall|j: int|
            0 <= j && !(s <= j < e) ==> #[trigger] read_result(im2, j) == read_result(im1, j),
        forall|j: int| s < j < e ==> #[trigger] read_result(im2, j) is Err,
        forall|j: int| s <= j < e ==> #[trigger] read_result(im1, j) is Err,
        read_result(im2, s as int) == Ok::<Seq<u8>, Error>(p),
    ensures
        ({
            let pos = records_upto(im1, s as int).len() as int;
            &&& 0 <= pos <= records(im1).len()
            &&& records(im2) == records(im1).insert(pos, (s, p))
        }),
{
    let nb1 = num_blocks(im1);
    let nb2 = num_blocks(im2);
    let nn = if nb1 >= nb2 {
        nb1
    } else {
        nb2
    };
    let nm = if e >= nn {
        e
    } else {
        nn
    };
    lemma_records_insert(im1, im2, s, e, p, nm);
    lemma_records_upto_stable(im1, nb1, nm);
    lemma_records_upto_stable(im2, nb2, nm);
}

/// `lemma_records_remove`, taken to the full record lists of both images.
pub proof fn lemma_records_remove_full(im1: Seq<u8>, im2: Seq<u8>, s: u64, e: int)
    requires
        0 <= s < e,
        e <= num_blocks(im2) || e <= num_blocks(im1),
        forall|j: int|
            0 <= j && !(s <= j < e) ==> #[trigger] read_result(im2, j) == read_result(im1, j),
        forall|j: int| s <= j < e ==> #[trigger] read_result(im2, j) is Err,
        forall|j: int| s < j < e ==> #[trigger] read_result(im1, j) is Err,
        read_result(im1, s as int) is Ok,
    ensures
        ({
            let pos = records_upto(im1, s as int).len() as int;
            &&& 0 <= pos < records(im1).len()
            &&& records(im1)[pos] == (s, read_result(im1, s as int)->Ok_0)
            &&& records(im2) == records(im1).remove(pos)
        }),
{
    let nb1 = num_blocks(im1);
    let nb2 = num_blocks(im2);
    let nn = if nb1 >= nb2 {
        nb1
    } else {
        nb2
    };
    let nm = if e >= nn {
        e
    } else {
        nn
    };
    lemma_records_remove(im1, im2, s, e, nm);
    lemma_records_upto_stable(im1, nb1, nm);
    lemma_records_upto_stable(im2, nb2, nm);
    lemma_read_in_records(im1, s);
    lemma_records_upto_prefix(im1, s as int + 1, nb1);
}

/// Inserting anywhere adds one copy to the multiset of a sequence.
pub proof fn lemma_insert_to_multiset<A>(s: Seq<A>, p: int, x: A)
    requires
        0 <= p <= s.len(),
    ensures
        s.insert(p, x).to_multiset() == s.to_multiset().insert(x),
    decreases s.len(),
{
    broadcast use group_to_multiset_ensures;

    let t = s.insert(p, x);
    assert(t.remove(p) =~= s);
    assert(t[p] == x);
    assert(t.remove(p).to_multiset() =~= t.to_multiset().remove(x));
    assert(t.contains(x));
    assert(t.to_multiset().count(x) > 0);
    assert(t.to_multiset().remove(x).insert(x) =~= t.to_multiset());
}

/// Removing position `p` takes one copy of `s[p]` out of the multiset.
pub proof fn lemma_remove_to_multiset<A>(s: Seq<A>, p: int)
    requires
        0 <= p < s.len(),
    ensures
        s.remove(p).to_multiset() == s.to_multiset().remove(s[p]),
{
    broadcast use group_to_multiset_ensures;

    assert(s.remove(p).to_multiset() =~= s.to_multiset().remove(s[p]));
}

/// Concatenation adds the multisets of the two parts.
pub proof fn lemma_add_to_multiset<A>(a: Seq<A>, b: Seq<A>)
    ensures
        (a + b).to_multiset() == a.to_multiset().add(b.to_multiset()),
    decreases b.len(),
{
    broadcast use group_to_multiset_ensures;

    if b.len() == 0 {
        assert(a + b =~= a);
        assert(b.to_multiset() =~= Multiset::<A>::empty());
        assert(a.to_multiset().add(Multiset::<A>::empty()) =~= a.to_multiset());
    } else {
        lemma_add_to_multiset(a, b.drop_last());
        assert(a + b =~= (a + b.drop_last()).push(b.last()));
        assert(b.drop_last().push(b.last()) =~= b);
        assert(b.to_multiset() =~= b.drop_last().to_multiset().insert(b.last()));
        assert((a + b).to_multiset() =~= a.to_multiset().add(b.drop_last().to_multiset()).insert(
            b.last(),
        ));
        assert(a.to_multiset().add(b.drop_last().to_multiset()).insert(b.last())
            =~= a.to_multiset().add(b.drop_last().to_multiset().insert(b.last())));
    }
}

/// What removing one record does to the payload list.
pub proof fn lemma_payloads_after_remove(im0: Seq<u8>, im1: Seq<u8>, s: u64, e: int)
    requires
        0 <= s < e,
        e <= num_blocks(im1) || e <= num_blocks(im0),
        forall|j: int|
            0 <= j && !(s <= j < e) ==> #[trigger] read_result(im1, j) == read_result(im0, j),
        forall|j: int| s <= j < e ==> #[trigger] read_result(im1, j) is Err,
        forall|j: int| s < j < e ==> #[trigger] read_result(im0, j) is Err,
        read_result(im0, s as int) is Ok,
    ensures
        ({
            let pos = records_upto(im0, s as int).len() as int;
            &&& 0 <= pos < payloads(im0).len()
            &&& payloads(im0)[pos] == read_result(im0, s as int)->Ok_0
            &&& payloads(im1) == payloads(im0).remove(pos)
        }),
{
    lemma_records_remove_full(im0, im1, s, e);
    let pos = records_upto(im0, s as int).len() as int;
    assert(payloads(im1) =~= payloads(im0).remove(pos)) by {
        assert(records(im1) == records(im0).remove(pos));
    }
}

// ---------------------------------------------------------------------------
// Facts about stripping.

proof fn lemma_strip_zeros_append_zeros(s: Seq<u8>, z: nat)
    ensures
        strip_zeros(s + Seq::new(z, |i: int| 0u8)) == strip_zeros(s),
    decreases z,
{
    if z == 0 {
        assert(s + Seq::new(0, |i: int| 0u8) =~= s);
    } else {
        let t = s + Seq::new(z, |i: int| 0u8);
        assert(t.len() > 0 && t.last() == 0);
        assert(t.drop_last() =~= s + Seq::new((z - 1) as nat, |i: int| 0u8));
        lemma_strip_zeros_append_zeros(s, (z - 1) as nat);
    }
}

/// Decoding strips exactly the padding and marker that framing added.
pub proof fn lemma_strip_padded(raw: Seq<u8>)
    requires
        raw.len() > 0,
    ensures
        raw.len() % 28 != 0 ==> strip_payload(padded(raw)) == raw,
        raw.len() % 28 == 0 ==> strip_payload(padded(raw)) == strip_payload(raw),
        round_trips(raw) ==> strip_payload(padded(raw)) == raw,
{
    if raw.len() % 28 != 0 {
        let z = (needed_blocks(raw.len() as int) * 28 - raw.len() - 1) as nat;
        let se = raw + seq![END_BYTE];
        assert(padded(raw) =~= se + Seq::new(z, |i: int| 0u8));
        lemma_strip_zeros_append_zeros(se, z);
        assert(se.last() == END_BYTE);
        assert(strip_zeros(se) == se);
        assert(se.drop_last() =~= raw);
    } else {
        if round_trips(raw) {
            assert(strip_zeros(raw) == raw);
            assert(strip_payload(raw) == raw);
        }
    }
}

// ---------------------------------------------------------------------------
// Facts about content accumulation.

/// Content over a range, extended one block at a time on either side.
pub proof fn lemma_content_bytes_unfold(image: Seq<u8>, s: int, e: int)
    requires
        s < e,
    ensures
        content_bytes(image, s, e) == content_bytes(image, s, e - 1) + block_content(image, e - 1),
        content_bytes(image, s, e).len() == (e - s) * 28,
    decreases e - s,
{
    if s < e - 1 {
        lemma_content_bytes_unfold(image, s, e - 1);
    }
}

/// Byte `j` exists in both images and is the same in both.
pub open spec fn byte_eq(im1: Seq<u8>, im2: Seq<u8>, j: int) -> bool {
    0 <= j < im1.len() && 0 <= j < im2.len() && im1[j] == im2[j]
}

/// Two images that agree on the bytes of blocks `[s, e)` accumulate the same
/// content over them.
pub proof fn lemma_content_bytes_congruence(im1: Seq<u8>, im2: Seq<u8>, s: int, e: int)
    requires
        forall|j: int| s * 30 <= j < e * 30 ==> #[trigger] byte_eq(im1, im2, j),
    ensures
        content_bytes(im1, s, e) == content_bytes(im2, s, e),
    decreases e - s,
{
    if s < e {
        assert forall|j: int| s * 30 <= j < (e - 1) * 30 implies #[trigger] byte_eq(
            im1,
            im2,
            j,
        ) by {
            assert(s * 30 <= j < e * 30);
        }
        lemma_content_bytes_congruence(im1, im2, s, e - 1);
        assert(block_content(im1, e - 1) =~= block_content(im2, e - 1)) by {
            assert forall|o: int| 0 <= o < 28 implies #[trigger] block_content(im1, e - 1)[o]
                == block_content(im2, e - 1)[o] by {
                assert(byte_eq(im1, im2, (e - 1) * 30 + 1 + o));
            }
        }
    }
}

/// The content a decoder accumulates over a framed record is exactly the
/// padded payload.
pub proof fn lemma_content_of_frame(image: Seq<u8>, s: int, raw: Seq<u8>)
    requires
        raw.len() >= 1,
        s >= 0,
        (s + needed_blocks(raw.len() as int)) * 30 <= image.len(),
        forall|b: int, o: int|
            0 <= b < needed_blocks(raw.len() as int) && 0 <= o < 30 ==> image[(s + b) * 30 + o]
                == #[trigger] frame_at(raw, b, o),
    ensures
        content_bytes(image, s, s + needed_blocks(raw.len() as int)) == padded(raw),
{
    let n = needed_blocks(raw.len() as int);
    let l = raw.len() as int;
    assert forall|i: int| 0 <= i < n implies #[trigger] block_content(image, s + i) =~= padded(
        raw,
    ).subrange(i * 28, i * 28 + 28) by {
        assert forall|o: int| 0 <= o < 28 implies #[trigger] block_content(image, s + i)[o]
            == padded(raw).subrange(i * 28, i * 28 + 28)[o] by {
            assert(image[(s + i) * 30 + (1 + o)] == frame_at(raw, i, 1 + o));
            assert(block_content(image, s + i)[o] == image[(s + i) * 30 + 1 + o]);
        }
    }
    lemma_content_prefixes(image, s, raw, n);
    assert(padded(raw).subrange(0, n * 28) =~= padded(raw));
}

proof fn lemma_content_prefixes(image: Seq<u8>, s: int, raw: Seq<u8>, k: int)
    requires
        raw.len() >= 1,
        s >= 0,
        0 <= k <= needed_blocks(raw.len() as int),
        forall|i: int|
            0 <= i < needed_blocks(raw.len() as int) ==> #[trigger] block_content(image, s + i)
                == padded(raw).subrange(i * 28, i * 28 + 28),
    ensures
        content_bytes(image, s, s + k) == padded(raw).subrange(0, k * 28),
    decreases k,
{
    if k == 0 {
        assert(content_bytes(image, s, s) =~= padded(raw).subrange(0, 0));
    } else {
        lemma_content_prefixes(image, s, raw, k - 1);
        lemma_content_bytes_unfold(image, s, s + k);
        assert(block_content(image, s + (k - 1)) == padded(raw).subrange(
            (k - 1) * 28,
            (k - 1) * 28 + 28,
        ));
        assert(padded(raw).subrange(0, (k - 1) * 28) + padded(raw).subrange(
            (k - 1) * 28,
            k * 28,
        ) =~= padded(raw).subrange(0, k * 28));
    }
}

/// Where a record's run ends, read off the tags around it.
pub proof fn lemma_run_end_at(image: Seq<u8>, s: int, e: int)
    requires
        s < e,
        forall|b: int| s < b < e ==> #[trigger] tag(image, b) == 2,
        e >= num_blocks(image) || tag(image, e) != 2,
    ensures
        run_end(image, s) == e,
{
    lemma_run_end_from_at(image, s + 1, e);
}

proof fn lemma_run_end_from_at(image: Seq<u8>, b: int, e: int)
    requires
        b <= e,
        forall|j: int| b <= j < e ==> #[trigger] tag(image, j) == 2,
        e >= num_blocks(image) || tag(image, e) != 2,
    ensures
        run_end_from(image, b) == e,
    decreases e - b,
{
    if b < e {
        assert(tag(image, b) == 2);
        lemma_run_end_from_at(image, b + 1, e);
    }
}

/// What is true of any record run: it starts right after its head, every
/// block strictly inside it carries a `Continuation` tag, and it stops at the
/// first block that does not (or at the end of the image).
pub proof fn lemma_run_end_props(image: Seq<u8>, s: int)
    requires
        0 <= s,
    ensures
        s + 1 <= run_end(image, s),
        run_end(image, s) <= if s + 1 >= num_blocks(image) {
            s + 1
        } else {
            num_blocks(image)
        },
        forall|j: int| s < j < run_end(image, s) ==> #[trigger] tag(image, j) == 2,
        run_end(image, s) >= num_blocks(image) || tag(image, run_end(image, s)) != 2,
{
    lemma_run_end_from_props(image, s + 1);
}

proof fn lemma_run_end_from_props(image: Seq<u8>, b: int)
    requires
        0 <= b,
    ensures
        b <= run_end_from(image, b),
        run_end_from(image, b) <= if b >= num_blocks(image) {
            b
        } else {
            num_blocks(image)
        },
        forall|j: int| b <= j < run_end_from(image, b) ==> #[trigger] tag(image, j) == 2,
        run_end_from(image, b) >= num_blocks(image) || tag(image, run_end_from(image, b)) != 2,
    decreases num_blocks(image) - b,
{
    if b < num_blocks(image) && tag(image, b) == 2 {
        lemma_run_end_from_props(image, b + 1);
    }
}

/// How zeroing the tags of a record's run `[s, e)` changes what each block
/// decodes to: the freed blocks read as `EmptyBlock`, and every other block
/// decodes exactly as before (only tag bytes changed, and no other record's
/// run touches this one).
pub proof fn lemma_unframe_effect(v0: Seq<u8>, vf: Seq<u8>, s: int, e: int)
    requires
        v0.len() as int % 30 == 0,
        vf.len() == v0.len(),
        0 <= s < e <= num_blocks(v0),
        tag(v0, s) == 1,
        forall|j: int| s < j < e ==> #[trigger] tag(v0, j) == 2,
        e == num_blocks(v0) || tag(v0, e) != 2,
        well_framed(v0),
        forall|j: int|
            0 <= j < vf.len() && !(s * 30 <= j < e * 30 && j % 30 == 0) ==> #[trigger] vf[j]
                == v0[j],
        forall|b: int| s <= b < e ==> #[trigger] tag(vf, b) == 0,
    ensures
        well_framed(vf),
        forall|b: int| 0 <= b && !(s <= b < e) ==> #[trigger] tag(vf, b) == tag(v0, b),
        forall|b: int|
            s <= b < e ==> #[trigger] read_result(vf, b) == Err::<Seq<u8>, Error>(
                Error::EmptyBlock,
            ),
        forall|b: int|
            0 <= b && !(s <= b < e) ==> #[trigger] read_result(vf, b) == read_result(v0, b),
{
    let nb = num_blocks(v0);
    assert(num_blocks(vf) == nb);
    assert forall|b: int| 0 <= b && !(s <= b < e) implies #[trigger] tag(vf, b) == tag(v0, b) by {
        if b < nb {
            assert(!(s * 30 <= b * 30 < e * 30 && b * 30 % 30 == 0)) by {
                if s * 30 <= b * 30 < e * 30 {
                    assert(s <= b < e);
                }
            }
            assert(vf[b * 30] == v0[b * 30]);
        }
    }
    assert forall|b: int|
        0 <= b && b + 1 < nb && tag(vf, b) == 0 implies #[trigger] tag(vf, b + 1) != 2 by {
        if s <= b + 1 < e {
            assert(tag(vf, b + 1) == 0);
        } else if b + 1 == s {
            assert(tag(vf, s) == 0);
        } else {
            assert(tag(vf, b + 1) == tag(v0, b + 1));
            if tag(v0, b + 1) == 2 {
                if s <= b < e {
                    // then b + 1 is the run's end or inside it
                    if b + 1 == e {
                        assert(tag(v0, e) != 2);
                    } else {
                        assert(s < b + 1 < e);
                    }
                    assert(false);
                } else {
                    assert(tag(vf, b) == tag(v0, b));
                    assert(tag(v0, b + 1) != 2);
                }
            }
        }
    }
    assert forall|b: int|
        0 <= b && !(s <= b < e) implies #[trigger] read_result(vf, b) == read_result(v0, b) by {
        assert(tag(vf, b) == tag(v0, b));
        if tag(v0, b) == 1 {
            let e0 = run_end(v0, b);
            lemma_run_end_props(v0, b);
            assert(b < nb);
            assert(e0 <= nb);
            // this record's run does not meet the freed one
            assert forall|j: int| b <= j < e0 implies #[trigger] tag(v0, j) != 0 && !(s <= j
                < e) by {
                if j == b {
                    assert(tag(v0, j) == 1);
                } else {
                    assert(tag(v0, j) == 2);
                }
                if s < j < e {
                    assert(tag(v0, j) == 2);
                    assert(j != s);
                    // a record's head cannot be inside another record's run
                    assert(false) by {
                        if j == b {
                            assert(tag(v0, j) == 1);
                        }
                    }
                }
                if j == s {
                    assert(tag(v0, s) == 1);
                    assert(j == b || tag(v0, j) == 2);
                    assert(j != b);
                }
            }
            assert(run_end(vf, b) == e0) by {
                assert forall|j: int| b < j < e0 implies #[trigger] tag(vf, j) == 2 by {
                    assert(tag(v0, j) == 2 && !(s <= j < e));
                    assert(tag(vf, j) == tag(v0, j));
                }
                if e0 < nb {
                    if s <= e0 < e {
                        assert(tag(vf, e0) == 0);
                    } else {
                        assert(tag(vf, e0) == tag(v0, e0));
                    }
                    assert(tag(vf, e0) != 2);
                }
                lemma_run_end_at(vf, b, e0);
            }
            assert(content_bytes(vf, b, e0) == content_bytes(v0, b, e0)) by {
                assert forall|j: int| b * 30 <= j < e0 * 30 implies #[trigger] byte_eq(
                    vf,
                    v0,
                    j,
                ) by {
                    let blk = j / 30;
                    assert(blk * 30 <= j < blk * 30 + 30) by (nonlinear_arith)
                        requires blk == j / 30;
                    assert(b <= blk < e0) by (nonlinear_arith)
                        requires b * 30 <= j < e0 * 30 && blk * 30 <= j < blk * 30 + 30;
                    assert(tag(v0, blk) != 0 && !(s <= blk < e));
                    assert(!(s * 30 <= j < e * 30 && j % 30 == 0)) by {
                        if s * 30 <= j < e * 30 && j % 30 == 0 {
                            assert(j == blk * 30) by (nonlinear_arith)
                                requires blk == j / 30 && j % 30 == 0;
                            assert(s <= blk < e) by {
                                if blk < s {
                                    assert(j < s * 30);
                                }
                                if blk >= e {
                                    assert(j >= e * 30);
                                }
                            }
                        }
                    }
                    assert(j < e0 * 30 <= v0.len());
                    assert(vf[j] == v0[j]);
                }
                lemma_content_bytes_congruence(vf, v0, b, e0);
            }
        }
    }
}

/// How framing a record at blocks `[s, s + needed_blocks)` of an all-`Empty`
/// region changes what each block of the image decodes to: the new record
/// reads back as its (padded, then stripped) payload, blocks inside the new
/// run read as `ContinuationBlock`, and every other block decodes exactly as
/// before.
pub proof fn lemma_frame_effect(v0: Seq<u8>, vf: Seq<u8>, s: int, raw: Seq<u8>)
    requires
        v0.len() as int % 30 == 0,
        vf.len() as int % 30 == 0,
        raw.len() >= 1,
        0 <= s <= num_blocks(v0),
        (s + needed_blocks(raw.len() as int)) * 30 <= vf.len(),
        vf.len() == if v0.len() >= (s + needed_blocks(raw.len() as int)) * 30 {
            v0.len() as int
        } else {
            (s + needed_blocks(raw.len() as int)) * 30
        },
        forall|b: int| s <= b < s + needed_blocks(raw.len() as int) ==> #[trigger] tag(v0, b) == 0,
        well_framed(v0),
        forall|j: int|
            0 <= j < v0.len() && !(s * 30 <= j < (s + needed_blocks(raw.len() as int)) * 30)
                ==> #[trigger] vf[j] == v0[j],
        forall|b: int, o: int|
            0 <= b < needed_blocks(raw.len() as int) && 0 <= o < 30 ==> vf[(s + b) * 30 + o]
                == #[trigger] frame_at(raw, b, o),
    ensures
        ({
            let n = needed_blocks(raw.len() as int);
            &&& num_blocks(vf) == if num_blocks(v0) >= s + n {
                num_blocks(v0)
            } else {
                s + n
            }
            &&& well_framed(vf)
            &&& tag(vf, s) == 1
            &&& forall|b: int| s < b < s + n ==> #[trigger] tag(vf, b) == 2
            &&& forall|b: int|
                0 <= b && !(s <= b < s + n) ==> #[trigger] tag(vf, b) == tag(v0, b)
            &&& read_result(vf, s) == Ok::<Seq<u8>, Error>(strip_payload(padded(raw)))
            &&& forall|b: int|
                s < b < s + n ==> #[trigger] read_result(vf, b) == Err::<Seq<u8>, Error>(
                    Error::ContinuationBlock,
                )
            &&& forall|b: int|
                0 <= b && !(s <= b < s + n) ==> #[trigger] read_result(vf, b) == read_result(v0, b)
        }),
{
    let n = needed_blocks(raw.len() as int);
    let nb0 = num_blocks(v0);
    let nbf = num_blocks(vf);
    assert(nb0 * 30 == v0.len());
    assert(nbf * 30 == vf.len());
    assert(nbf == if nb0 >= s + n {
        nb0
    } else {
        s + n
    });
    // tags of the region
    assert forall|b: int| s <= b < s + n implies #[trigger] tag(vf, b) == frame_at(
        raw,
        b - s,
        0,
    ) by {
        assert(vf[(s + (b - s)) * 30 + 0] == frame_at(raw, b - s, 0));
        assert((s + (b - s)) * 30 + 0 == b * 30);
    }
    assert(tag(vf, s) == 1);
    assert(forall|b: int| s < b < s + n ==> #[trigger] tag(vf, b) == 2);
    // tags outside the region
    assert forall|b: int| 0 <= b && !(s <= b < s + n) implies #[trigger] tag(vf, b) == tag(
        v0,
        b,
    ) by {
        if b < nb0 {
            assert(vf[b * 30] == v0[b * 30]);
        } else {
            assert(tag(v0, b) == 0);
            if b < nbf {
                assert(nbf == s + n);
                assert(false);
            }
        }
    }
    // well-framedness of the result
    assert forall|b: int|
        0 <= b && b + 1 < nbf && tag(vf, b) == 0 implies #[trigger] tag(vf, b + 1) != 2 by {
        if s <= b < s + n {
            assert(tag(vf, b) != 0);
        } else if b + 1 == s {
            assert(tag(vf, b + 1) == 1);
        } else if s < b + 1 < s + n {
            assert(s <= b < s + n);
        } else {
            assert(tag(vf, b + 1) == tag(v0, b + 1));
            assert(tag(vf, b) == tag(v0, b));
            if tag(v0, b + 1) == 2 {
                assert(b + 1 < nb0);
                assert(tag(v0, b + 1) != 2);
            }
        }
    }
    // the new record decodes to its payload
    assert(run_end(vf, s) == s + n) by {
        if s + n < nbf {
            assert(tag(vf, s + n) == tag(v0, s + n));
            assert(tag(v0, s + n - 1) == 0);
            if s + n < nb0 {
                assert(tag(v0, (s + n - 1) + 1) != 2);
                assert(tag(v0, s + n) != 2);
            } else {
                assert(tag(v0, s + n) == 0);
            }
        }
        lemma_run_end_at(vf, s, s + n);
    }
    assert(content_bytes(vf, s, s + n) == padded(raw)) by {
        lemma_content_of_frame(vf, s, raw);
    }
    // blocks inside the run
    assert(forall|b: int|
        s < b < s + n ==> #[trigger] read_result(vf, b) == Err::<Seq<u8>, Error>(
            Error::ContinuationBlock,
        ));
    // every other block decodes as before
    assert forall|b: int|
        0 <= b && !(s <= b < s + n) implies #[trigger] read_result(vf, b) == read_result(
        v0,
        b,
    ) by {
        assert(tag(vf, b) == tag(v0, b));
        if tag(v0, b) == 1 {
            let e0 = run_end(v0, b);
            lemma_run_end_props(v0, b);
            assert(b < nb0);
            assert(e0 <= nb0);
            // the record's blocks are outside the rewritten region
            assert forall|j: int| b <= j < e0 implies #[trigger] tag(v0, j) != 0 && !(s <= j < s
                + n) by {
                if j == b {
                    assert(tag(v0, j) == 1);
                } else {
                    assert(tag(v0, j) == 2);
                }
                if s <= j < s + n {
                    assert(tag(v0, j) == 0);
                }
            }
            // the run ends at the same block
            assert(run_end(vf, b) == e0) by {
                assert forall|j: int| b < j < e0 implies #[trigger] tag(vf, j) == 2 by {
                    assert(tag(v0, j) == 2);
                    if s <= j < s + n {
                        assert(tag(v0, j) == 0);
                    }
                    assert(tag(vf, j) == tag(v0, j));
                }
                if e0 < nbf {
                    if e0 == s {
                        assert(tag(vf, e0) == 1);
                    } else if s < e0 < s + n {
                        assert(b <= e0 - 1 < e0);
                        assert(tag(v0, e0 - 1) != 0 && !(s <= e0 - 1 < s + n));
                        assert(false);
                    } else {
                        assert(tag(vf, e0) == tag(v0, e0));
                        if tag(v0, e0) == 2 {
                            assert(e0 < nb0);
                            assert(false);
                        }
                    }
                    assert(tag(vf, e0) != 2);
                }
                lemma_run_end_at(vf, b, e0);
            }
            // and its bytes are untouched
            assert(content_bytes(vf, b, e0) == content_bytes(v0, b, e0)) by {
                assert forall|j: int| b * 30 <= j < e0 * 30 implies #[trigger] byte_eq(
                    vf,
                    v0,
                    j,
                ) by {
                    let blk = j / 30;
                    assert(blk * 30 <= j < blk * 30 + 30) by (nonlinear_arith)
                        requires blk == j / 30;
                    assert(b <= blk < e0) by (nonlinear_arith)
                        requires b * 30 <= j < e0 * 30 && blk * 30 <= j < blk * 30 + 30;
                    assert(tag(v0, blk) == 2 || (blk == b && tag(v0, blk) == 1));
                    if s <= blk < s + n {
                        assert(tag(v0, blk) == 0);
                    }
                    assert(!(s * 30 <= j < (s + n) * 30)) by {
                        if blk < s {
                            assert(j < blk * 30 + 30 <= s * 30);
                        } else {
                            assert(blk >= s + n);
                            assert(j >= blk * 30 >= (s + n) * 30);
                        }
                    }
                    assert(j < e0 * 30 <= v0.len());
                    assert(vf[j] == v0[j]);
                }
                lemma_content_bytes_congruence(vf, v0, b, e0);
            }
        }
    }
}

} // verus!
