//! The dictionary-encoded column decoder: four kernels covering the cross
//! product of optionality (nulls or none) and row filtering (filtered or not),
//! plus the dispatch that classifies a call and routes it to the right kernel.
//!
//! All contracts are stated over three mathematical readings of a finished
//! decode: `lookup_seq` (every index materialised), `inflate` (values spread
//! over a validity bitmap, nulls padded with the zeroed value), and `gather`
//! (the filtered selection of an inflated page).

use vstd::prelude::*;

use crate::bitmap::Bitmap;
use crate::bitmap::count_ones;
use crate::bitmap::all_set;
use crate::bitmap::mask_select;
use crate::bitmap::filter_bitmap;
use crate::bitmap::lemma_count_ones_take_step;
use crate::bitmap::lemma_count_ones_take_mono;
use crate::bitmap::lemma_count_ones_take_full;
use crate::bitmap::lemma_full_count_is_all_set;
use crate::hybrid_rle::HybridRleChunk;
use crate::hybrid_rle::HybridRleDecoder;
use crate::hybrid_rle::chunk_indices;
use crate::hybrid_rle::chunks_indices;
use crate::hybrid_rle::lemma_chunks_indices_take_step;
use crate::hybrid_rle::lemma_stream_segment;
use crate::value::DictValue;
use crate::filter::Filter;
use crate::filter::range_mask;
use crate::filter::filter_from_range;
use crate::filter::lemma_count_range_mask;
use crate::laws::lemma_optional_matches_required;
use crate::laws::lemma_masked_matches_unmasked;
use crate::laws::lemma_gather_matches_inflate;
use crate::laws::lemma_gather_matches_masked;
use crate::laws::lemma_inflate_len;
use crate::laws::lemma_masked_lookup_len;
use crate::laws::lemma_gather_len;
use crate::laws::lemma_mask_select_len;

verus! {

/// The errors a decode can report.
#[derive(Debug, Clone, Copy, PartialEq, Eq)]
pub enum ParquetError {
    /// A stream index points at or past the end of the dictionary, or the
    /// dictionary is empty while the stream must produce a value.
    OutOfBoundsDictIndex,
}

pub type ParquetResult<T> = Result<T, ParquetError>;

/// The out-of-bounds dictionary index error.
pub fn oob_dict_idx() -> (r: ParquetError)
    ensures
        r == ParquetError::OutOfBoundsDictIndex,
{
    ParquetError::OutOfBoundsDictIndex
}

/// Every index falls inside a dictionary of `dict_len` entries.
pub open spec fn dict_ok(idx: Seq<u32>, dict_len: nat) -> bool {
    forall|i: int| 0 <= i < idx.len() ==> (#[trigger] idx[i] as nat) < dict_len
}

/// Every index materialised: the required (no nulls, no filter) reading.
pub open spec fn lookup_seq<B>(idx: Seq<u32>, dict: Seq<B>) -> Seq<B> {
    Seq::new(idx.len(), |i: int| dict[idx[i] as int])
}

/// The optional (nulls, no filter) reading: one output slot per validity bit;
/// a set bit materialises the next index, a cleared bit holds the zeroed
/// padding value.
pub open spec fn inflate<B: DictValue>(dict: Seq<B>, idx: Seq<u32>, validity: Seq<bool>) -> Seq<B>
    decreases validity.len(),
{
    if validity.len() == 0 {
        Seq::empty()
    } else {
        let prev = inflate(dict, idx, validity.drop_last());
        prev.push(
            if validity.last() {
                dict[idx[count_ones(validity.drop_last()) as int] as int]
            } else {
                B::spec_zeroed()
            },
        )
    }
}

/// The masked required (no nulls, mask filter) reading: row `j` consumes index
/// `j`; only rows at set filter bits are emitted.
pub open spec fn masked_lookup<B>(dict: Seq<B>, idx: Seq<u32>, filter: Seq<bool>) -> Seq<B>
    decreases filter.len(),
{
    if filter.len() == 0 {
        Seq::empty()
    } else {
        let prev = masked_lookup(dict, idx, filter.drop_last());
        if filter.last() {
            prev.push(dict[idx[filter.len() - 1] as int])
        } else {
            prev
        }
    }
}

/// The masked optional (nulls and mask filter) reading: valid rows consume
/// indices in row order; rows at set filter bits are emitted, a null one as
/// the zeroed padding value.
pub open spec fn gather<B: DictValue>(
    dict: Seq<B>,
    idx: Seq<u32>,
    validity: Seq<bool>,
    filter: Seq<bool>,
) -> Seq<B>
    recommends
        validity.len() == filter.len(),
    decreases filter.len(),
{
    if filter.len() == 0 {
        Seq::empty()
    } else {
        let prev = gather(dict, idx, validity.drop_last(), filter.drop_last());
        if filter.last() {
            prev.push(
                if validity.last() {
                    dict[idx[count_ones(validity.drop_last()) as int] as int]
                } else {
                    B::spec_zeroed()
                },
            )
        } else {
            prev
        }
    }
}

/// Bounding every index of a prefix grows one index at a time.
pub proof fn lemma_dict_ok_take_step(idx: Seq<u32>, dict_len: nat, i: int)
    requires
        0 <= i < idx.len(),
    ensures
        dict_ok(idx.take(i + 1), dict_len) <==> (dict_ok(idx.take(i), dict_len) && (
        idx[i] as nat) < dict_len),
{
    if dict_ok(idx.take(i + 1), dict_len) {
        assert forall|k: int| 0 <= k < i implies (#[trigger] idx.take(i)[k] as nat) < dict_len by {
            assert(idx.take(i)[k] == idx.take(i + 1)[k]);
        }
        assert(idx.take(i + 1)[i] == idx[i]);
    }
    if dict_ok(idx.take(i), dict_len) && (idx[i] as nat) < dict_len {
        assert forall|k: int| 0 <= k < i + 1 implies (#[trigger] idx.take(i + 1)[k] as nat)
            < dict_len by {
            if k < i {
                assert(idx.take(i + 1)[k] == idx.take(i)[k]);
            } else {
                assert(idx.take(i + 1)[k] == idx[i]);
            }
        }
    }
}

/// Validate one bit-packed batch of 32 indices against the dictionary size by
/// a branchless fold, with a single branch at the end.
pub fn verify_dict_indices(indices: &[u32; 32], dict_size: usize) -> (r: ParquetResult<()>)
    ensures
        r is Ok <==> dict_ok(indices@, dict_size as nat),
        r is Err ==> r == Err::<(), ParquetError>(ParquetError::OutOfBoundsDictIndex),
{
    let mut is_valid = true;
    let mut i: usize = 0;
    while i < 32
        invariant
            0 <= i <= 32,
            indices@.len() == 32,
            is_valid == dict_ok(indices@.take(i as int), dict_size as nat),
        decreases 32 - i,
    {
        proof {
            lemma_dict_ok_take_step(indices@, dict_size as nat, i as int);
        }
        is_valid = is_valid && (indices[i] as usize) < dict_size;
        i = i + 1;
    }
    proof {
        assert(indices@.take(32) =~= indices@);
    }
    if is_valid {
        return Ok(());
    }
    Err(oob_dict_idx())
}

/// Validate the first `n` indices of a bit-packed run against the dictionary
/// size: whole batches of 32 go through `verify_dict_indices`, and only the
/// partial tail is checked index by index.
fn validate_bitpacked_prefix(indices: &Vec<u32>, n: usize, dict_size: usize) -> (r: ParquetResult<
    (),
>)
    requires
        n <= indices@.len(),
    ensures
        r is Ok <==> dict_ok(indices@.take(n as int), dict_size as nat),
        r is Err ==> r == Err::<(), ParquetError>(ParquetError::OutOfBoundsDictIndex),
{
    let mut pos: usize = 0;
    while n - pos >= 32
        invariant
            0 <= pos <= n,
            n <= indices@.len(),
            dict_ok(indices@.take(pos as int), dict_size as nat),
        decreases n - pos,
    {
        let mut batch = [0u32; 32];
        let mut t: usize = 0;
        while t < 32
            invariant
                0 <= t <= 32,
                pos + 32 <= n,
                n <= indices@.len(),
                batch@.len() == 32,
                forall|w: int| 0 <= w < t ==> #[trigger] batch@[w] == indices@[pos + w],
            decreases 32 - t,
        {
            batch[t] = indices[pos + t];
            t = t + 1;
        }
        proof {
            assert(batch@ =~= indices@.subrange(pos as int, pos + 32));
        }
        match verify_dict_indices(&batch, dict_size) {
            Ok(()) => {},
            Err(e) => {
                proof {
                    let bad = choose|w: int|
                        0 <= w < 32 && !((#[trigger] batch@[w] as nat) < dict_size);
                    assert(indices@.take(n as int)[pos + bad] == batch@[bad]);
                    assert(!dict_ok(indices@.take(n as int), dict_size as nat));
                }
                return Err(e);
            },
        }
        proof {
            assert forall|k: int| 0 <= k < pos + 32 implies (#[trigger] indices@.take(pos + 32)[
            k] as nat) < dict_size by {
                if k < pos {
                    assert(indices@.take(pos as int)[k] == indices@[k]);
                } else {
                    assert(batch@[k - pos] == indices@[k]);
                }
            }
        }
        pos = pos + 32;
    }
    let mut is_valid = true;
    let mut i: usize = pos;
    while i < n
        invariant
            pos <= i <= n,
            n <= indices@.len(),
            is_valid == dict_ok(indices@.take(i as int), dict_size as nat),
        decreases n - i,
    {
        proof {
            lemma_dict_ok_take_step(indices@, dict_size as nat, i as int);
        }
        is_valid = is_valid && (indices[i] as usize) < dict_size;
        i = i + 1;
    }
    if is_valid {
        return Ok(());
    }
    Err(oob_dict_idx())
}

/// Decode the whole limited stream into a flat index buffer, validating every
/// index against the dictionary size before it is handed on.
fn collect_validated(values: &HybridRleDecoder, dict_len: usize) -> (r: ParquetResult<Vec<u32>>)
    requires
        values.wf(),
    ensures
        match r {
            Ok(idx) => idx@ == values@ && dict_ok(values@, dict_len as nat),
            Err(e) => !dict_ok(values@, dict_len as nat) && e
                == ParquetError::OutOfBoundsDictIndex,
        },
{
    let ghost cs = values.spec_chunks();
    proof {
        values.lemma_view_is_chunks_prefix();
    }
    let limit = values.len();
    let n_chunks = values.chunk_count();
    let mut out: Vec<u32> = Vec::new();
    let mut remaining: usize = limit;
    let mut ci: usize = 0;
    while ci < n_chunks && remaining > 0
        invariant
            values.wf(),
            cs == values.spec_chunks(),
            limit == values.spec_limit(),
            limit == values@.len(),
            limit <= chunks_indices(cs).len(),
            values@ == chunks_indices(cs).take(limit as int),
            0 <= ci <= n_chunks,
            n_chunks == cs.len(),
            remaining <= limit,
            out@.len() == limit - remaining,
            out@.len() == vstd::math::min(
                chunks_indices(cs.take(ci as int)).len() as int,
                limit as int,
            ),
            out@ == values@.take(out@.len() as int),
            dict_ok(out@, dict_len as nat),
        decreases n_chunks - ci,
    {
        let ghost consumed = out@.len() as int;
        proof {
            lemma_chunks_indices_take_step(cs, ci as int);
            lemma_stream_segment(cs, limit as int, ci as int, 0);
            assert(values@.take(consumed) =~= chunks_indices(cs.take(ci as int)));
        }
        let chunk = values.get_chunk(ci);
        match chunk {
            HybridRleChunk::Rle(value, length) => {
                let take_n = if *length < remaining {
                    *length
                } else {
                    remaining
                };
                if take_n > 0 {
                    proof {
                        lemma_stream_segment(cs, limit as int, ci as int, take_n as int);
                    }
                    if !((*value as usize) < dict_len) {
                        proof {
                            assert(values@.take(consumed + take_n)[consumed] == chunk_indices(
                                cs[ci as int],
                            ).take(take_n as int)[0]);
                            assert(values@[consumed] == *value);
                            assert(!dict_ok(values@, dict_len as nat));
                        }
                        return Err(oob_dict_idx());
                    }
                    let ghost base = out@;
                    let mut t: usize = 0;
                    while t < take_n
                        invariant
                            0 <= t <= take_n,
                            out@ == base + Seq::new(t as nat, |k: int| *value),
                        decreases take_n - t,
                    {
                        proof {
                            assert(Seq::new((t + 1) as nat, |k: int| *value) =~= Seq::new(
                                t as nat,
                                |k: int| *value,
                            ).push(*value));
                        }
                        out.push(*value);
                        t = t + 1;
                    }
                    proof {
                        assert(chunk_indices(cs[ci as int]).take(take_n as int) =~= Seq::new(
                            take_n as nat,
                            |k: int| *value,
                        ));
                        assert(out@ =~= values@.take(consumed + take_n));
                        assert forall|k: int| 0 <= k < out@.len() implies (
                        #[trigger] out@[k] as nat) < dict_len by {
                            if k < consumed {
                                assert(out@[k] == base[k]);
                            }
                        }
                    }
                }
                remaining = remaining - take_n;
            },
            HybridRleChunk::Bitpacked(indices) => {
                let len_b = indices.len();
                let take_n = if len_b < remaining {
                    len_b
                } else {
                    remaining
                };
                proof {
                    lemma_stream_segment(cs, limit as int, ci as int, take_n as int);
                }
                match validate_bitpacked_prefix(indices, take_n, dict_len) {
                    Ok(()) => {},
                    Err(e) => {
                        proof {
                            let bad = choose|k: int|
                                0 <= k < take_n && !((#[trigger] indices@.take(take_n as int)[
                                    k] as nat) < dict_len);
                            assert(values@.take(consumed + take_n)[consumed + bad]
                                == chunk_indices(cs[ci as int]).take(take_n as int)[bad]);
                            assert((values@[consumed + bad] as nat) >= dict_len);
                            assert(!dict_ok(values@, dict_len as nat));
                        }
                        return Err(e);
                    },
                }
                let ghost base = out@;
                let mut t: usize = 0;
                while t < take_n
                    invariant
                        0 <= t <= take_n,
                        take_n <= indices@.len(),
                        out@ == base + indices@.take(t as int),
                    decreases take_n - t,
                {
                    proof {
                        assert(indices@.take(t + 1) =~= indices@.take(t as int).push(
                            indices@[t as int],
                        ));
                    }
                    out.push(indices[t]);
                    t = t + 1;
                }
                proof {
                    assert(out@ =~= values@.take(consumed + take_n));
                    assert forall|k: int| 0 <= k < out@.len() implies (#[trigger] out@[k] as nat)
                        < dict_len by {
                        if k < consumed {
                            assert(out@[k] == base[k]);
                        } else {
                            assert(out@[k] == indices@.take(take_n as int)[k - consumed]);
                        }
                    }
                }
                remaining = remaining - take_n;
            },
        }
        ci = ci + 1;
    }
    proof {
        if remaining > 0 {
            assert(ci == n_chunks);
            assert(cs.take(ci as int) =~= cs);
            assert(false);
        }
        assert(out@ =~= values@);
    }
    Ok(out)
}

proof fn lemma_inflate_take_step<B: DictValue>(dict: Seq<B>, idx: Seq<u32>, v: Seq<bool>, j: int)
    requires
        0 <= j < v.len(),
    ensures
        inflate(dict, idx, v.take(j + 1)) == inflate(dict, idx, v.take(j)).push(
            if v[j] {
                dict[idx[count_ones(v.take(j)) as int] as int]
            } else {
                B::spec_zeroed()
            },
        ),
{
    assert(v.take(j + 1).drop_last() =~= v.take(j));
    assert(v.take(j + 1).last() == v[j]);
}

proof fn lemma_masked_lookup_take_step<B>(dict: Seq<B>, idx: Seq<u32>, f: Seq<bool>, j: int)
    requires
        0 <= j < f.len(),
    ensures
        masked_lookup(dict, idx, f.take(j + 1)) == if f[j] {
            masked_lookup(dict, idx, f.take(j)).push(dict[idx[j] as int])
        } else {
            masked_lookup(dict, idx, f.take(j))
        },
{
    assert(f.take(j + 1).drop_last() =~= f.take(j));
    assert(f.take(j + 1).last() == f[j]);
}

proof fn lemma_gather_take_step<B: DictValue>(
    dict: Seq<B>,
    idx: Seq<u32>,
    v: Seq<bool>,
    f: Seq<bool>,
    j: int,
)
    requires
        v.len() == f.len(),
        0 <= j < f.len(),
    ensures
        gather(dict, idx, v.take(j + 1), f.take(j + 1)) == if f[j] {
            gather(dict, idx, v.take(j), f.take(j)).push(
                if v[j] {
                    dict[idx[count_ones(v.take(j)) as int] as int]
                } else {
                    B::spec_zeroed()
                },
            )
        } else {
            gather(dict, idx, v.take(j), f.take(j))
        },
{
    assert(v.take(j + 1).drop_last() =~= v.take(j));
    assert(f.take(j + 1).drop_last() =~= f.take(j));
    assert(v.take(j + 1).last() == v[j]);
    assert(f.take(j + 1).last() == f[j]);
}

/// Append one materialised value per stream index to `target`: the kernel for
/// pages with no nulls and no filter.
pub fn decode_required_dict<B: DictValue>(
    values: HybridRleDecoder,
    dict: &[B],
    target: &mut Vec<B>,
) -> (r: ParquetResult<()>)
    requires
        values.wf(),
    ensures
        r is Ok <==> dict_ok(values@, dict@.len()),
        r is Ok ==> final(target)@ == old(target)@ + lookup_seq(values@, dict@),
        r is Err ==> final(target)@ == old(target)@ && r == Err::<(), ParquetError>(
            ParquetError::OutOfBoundsDictIndex,
        ),
{
    if dict.len() == 0 && values.len() > 0 {
        proof {
            assert(!((values@[0] as nat) < dict@.len()));
        }
        return Err(oob_dict_idx());
    }
    let idx = match collect_validated(&values, dict.len()) {
        Ok(idx) => idx,
        Err(e) => {
            return Err(e);
        },
    };
    let n = idx.len();
    let mut j: usize = 0;
    while j < n
        invariant
            0 <= j <= n,
            n == idx@.len(),
            idx@ == values@,
            dict_ok(values@, dict@.len()),
            target@ == old(target)@ + lookup_seq(values@.take(j as int), dict@),
        decreases n - j,
    {
        proof {
            assert(lookup_seq(values@.take(j + 1), dict@) =~= lookup_seq(
                values@.take(j as int),
                dict@,
            ).push(dict@[values@[j as int] as int]));
        }
        let value = dict[idx[j] as usize];
        target.push(value);
        j = j + 1;
    }
    proof {
        assert(values@.take(n as int) =~= values@);
    }
    Ok(())
}

/// Append one output slot per validity bit to `target`: a set bit
/// materialises the next stream index, a cleared bit holds the zeroed padding
/// value. The kernel for pages with nulls and no filter.
pub fn decode_optional_dict<B: DictValue>(
    values: HybridRleDecoder,
    dict: &[B],
    validity: &Bitmap,
    target: &mut Vec<B>,
) -> (r: ParquetResult<()>)
    requires
        values.wf(),
        count_ones(validity@) <= values@.len(),
    ensures
        r is Ok <==> dict_ok(values@.take(count_ones(validity@) as int), dict@.len()),
        r is Ok ==> final(target)@ == old(target)@ + inflate(
            dict@,
            values@.take(count_ones(validity@) as int),
            validity@,
        ),
        r is Err ==> final(target)@ == old(target)@ && r == Err::<(), ParquetError>(
            ParquetError::OutOfBoundsDictIndex,
        ),
{
    let ghost vals0 = values@;
    let ghost k = count_ones(validity@);
    let num_valid = validity.set_bits();
    let el = validity.len();

    // Fast path: every row is valid, so the optional reading is the required
    // reading of the first `el` indices.
    if num_valid == el {
        let mut values = values;
        values.limit_to(el);
        let r = decode_required_dict(values, dict, target);
        proof {
            lemma_full_count_is_all_set(validity@);
            lemma_optional_matches_required(dict@, vals0.take(k as int), k);
            assert(vals0.take(k as int).take(k as int) =~= vals0.take(k as int));
        }
        return r;
    }
    if dict.len() == 0 && num_valid > 0 {
        proof {
            assert(vals0.take(k as int).len() == k);
            assert(!((vals0.take(k as int)[0] as nat) < dict@.len()));
        }
        return Err(oob_dict_idx());
    }
    let mut values = values;
    values.limit_to(num_valid);
    let idx = match collect_validated(&values, dict.len()) {
        Ok(idx) => idx,
        Err(e) => {
            return Err(e);
        },
    };
    let mut cursor: usize = 0;
    let mut j: usize = 0;
    while j < el
        invariant
            0 <= j <= el,
            el == validity@.len(),
            k == count_ones(validity@),
            num_valid == k,
            idx@ == vals0.take(k as int),
            idx@.len() == k,
            dict_ok(idx@, dict@.len()),
            cursor == count_ones(validity@.take(j as int)),
            cursor <= num_valid,
            target@ == old(target)@ + inflate(dict@, idx@, validity@.take(j as int)),
        decreases el - j,
    {
        proof {
            lemma_count_ones_take_step(validity@, j as int);
            lemma_count_ones_take_mono(validity@, j + 1, el as int);
            lemma_count_ones_take_full(validity@);
            lemma_inflate_take_step(dict@, idx@, validity@, j as int);
        }
        if validity.get(j) {
            let value = dict[idx[cursor] as usize];
            target.push(value);
            cursor = cursor + 1;
        } else {
            target.push(B::zeroed());
        }
        j = j + 1;
    }
    proof {
        assert(validity@.take(el as int) =~= validity@);
    }
    Ok(())
}

/// Append one materialised value per set filter bit to `target`, in row
/// order, skipping filtered-out rows: the kernel for pages with no nulls and
/// a mask filter.
pub fn decode_masked_required_dict<B: DictValue>(
    values: HybridRleDecoder,
    dict: &[B],
    filter: &Bitmap,
    target: &mut Vec<B>,
) -> (r: ParquetResult<()>)
    requires
        values.wf(),
        filter@.len() <= values@.len(),
    ensures
        r is Ok <==> dict_ok(values@.take(filter@.len() as int), dict@.len()),
        r is Ok ==> final(target)@ == old(target)@ + masked_lookup(
            dict@,
            values@.take(filter@.len() as int),
            filter@,
        ),
        r is Err ==> final(target)@ == old(target)@ && r == Err::<(), ParquetError>(
            ParquetError::OutOfBoundsDictIndex,
        ),
{
    let ghost vals0 = values@;
    let num_rows = filter.set_bits();
    let fl = filter.len();

    // Fast path: every row is selected, so the masked reading is the required
    // reading of the first `fl` indices.
    if num_rows == fl {
        let mut values = values;
        values.limit_to(fl);
        let r = decode_required_dict(values, dict, target);
        proof {
            lemma_full_count_is_all_set(filter@);
            lemma_masked_matches_unmasked(dict@, vals0.take(fl as int), fl as nat);
            assert(vals0.take(fl as int).take(fl as int) =~= vals0.take(fl as int));
        }
        return r;
    }
    if dict.len() == 0 && !filter.is_empty() {
        proof {
            assert(vals0.take(fl as int).len() == fl);
            assert(!((vals0.take(fl as int)[0] as nat) < dict@.len()));
        }
        return Err(oob_dict_idx());
    }
    let mut values = values;
    values.limit_to(fl);
    let idx = match collect_validated(&values, dict.len()) {
        Ok(idx) => idx,
        Err(e) => {
            return Err(e);
        },
    };
    let mut j: usize = 0;
    while j < fl
        invariant
            0 <= j <= fl,
            fl == filter@.len(),
            idx@ == vals0.take(fl as int),
            idx@.len() == fl,
            dict_ok(idx@, dict@.len()),
            target@ == old(target)@ + masked_lookup(dict@, idx@, filter@.take(j as int)),
        decreases fl - j,
    {
        proof {
            lemma_masked_lookup_take_step(dict@, idx@, filter@, j as int);
        }
        if filter.get(j) {
            let value = dict[idx[j] as usize];
            target.push(value);
        }
        j = j + 1;
    }
    proof {
        assert(filter@.take(fl as int) =~= filter@);
    }
    Ok(())
}

/// Append one output slot per set filter bit to `target`: a selected valid
/// row materialises the next stream index, a selected null row holds the
/// zeroed padding value, and filtered-out rows are skipped. The kernel for
/// pages with nulls and a mask filter.
pub fn decode_masked_optional_dict<B: DictValue>(
    values: HybridRleDecoder,
    dict: &[B],
    filter: &Bitmap,
    validity: &Bitmap,
    target: &mut Vec<B>,
) -> (r: ParquetResult<()>)
    requires
        values.wf(),
        filter@.len() == validity@.len(),
        count_ones(validity@) <= values@.len(),
    ensures
        r is Ok <==> dict_ok(values@.take(count_ones(validity@) as int), dict@.len()),
        r is Ok ==> final(target)@ == old(target)@ + gather(
            dict@,
            values@.take(count_ones(validity@) as int),
            validity@,
            filter@,
        ),
        r is Err ==> final(target)@ == old(target)@ && r == Err::<(), ParquetError>(
            ParquetError::OutOfBoundsDictIndex,
        ),
{
    let ghost vals0 = values@;
    let ghost k = count_ones(validity@);
    let num_rows = filter.set_bits();
    let num_valid = validity.set_bits();
    let el = validity.len();

    // Fast path: every row is selected, so the masked optional reading is the
    // optional reading.
    if num_rows == filter.len() {
        let r = decode_optional_dict(values, dict, validity, target);
        proof {
            lemma_full_count_is_all_set(filter@);
            lemma_gather_matches_inflate(dict@, vals0.take(k as int), validity@);
        }
        return r;
    }
    // Fast path: every row is valid, so the masked optional reading is the
    // masked required reading.
    if num_valid == el {
        let r = decode_masked_required_dict(values, dict, filter, target);
        proof {
            lemma_full_count_is_all_set(validity@);
            lemma_gather_matches_masked(dict@, vals0.take(k as int), filter@);
        }
        return r;
    }
    if dict.len() == 0 && num_valid > 0 {
        proof {
            assert(vals0.take(k as int).len() == k);
            assert(!((vals0.take(k as int)[0] as nat) < dict@.len()));
        }
        return Err(oob_dict_idx());
    }
    let mut values = values;
    values.limit_to(num_valid);
    let idx = match collect_validated(&values, dict.len()) {
        Ok(idx) => idx,
        Err(e) => {
            return Err(e);
        },
    };
    let mut cursor: usize = 0;
    let mut j: usize = 0;
    while j < el
        invariant
            0 <= j <= el,
            el == validity@.len(),
            el == filter@.len(),
            k == count_ones(validity@),
            num_valid == k,
            idx@ == vals0.take(k as int),
            idx@.len() == k,
            dict_ok(idx@, dict@.len()),
            cursor == count_ones(validity@.take(j as int)),
            cursor <= num_valid,
            target@ == old(target)@ + gather(
                dict@,
                idx@,
                validity@.take(j as int),
                filter@.take(j as int),
            ),
        decreases el - j,
    {
        proof {
            lemma_count_ones_take_step(validity@, j as int);
            lemma_count_ones_take_mono(validity@, j + 1, el as int);
            lemma_count_ones_take_full(validity@);
            lemma_gather_take_step(dict@, idx@, validity@, filter@, j as int);
        }
        if filter.get(j) {
            if validity.get(j) {
                let value = dict[idx[cursor] as usize];
                target.push(value);
            } else {
                target.push(B::zeroed());
            }
        }
        if validity.get(j) {
            cursor = cursor + 1;
        }
        j = j + 1;
    }
    proof {
        assert(validity@.take(el as int) =~= validity@);
        assert(filter@.take(el as int) =~= filter@);
    }
    Ok(())
}

/// The bits of an optional page-validity argument.
pub open spec fn opt_bitmap_view(pv: Option<&Bitmap>) -> Option<Seq<bool>> {
    match pv {
        Some(b) => Some(b@),
        None => None,
    }
}

/// A borrowed optional filter, read back as a value.
pub open spec fn opt_filter_read(f: Option<&Filter>) -> Option<Filter> {
    match f {
        Some(f) => Some(*f),
        None => None,
    }
}

/// The validity bits that one call appends for an optional page: all set when
/// the page has no nulls, the page validity itself (sliced by a range filter,
/// or gated by a mask filter) when it has.
pub open spec fn appended_validity(
    pv: Option<Seq<bool>>,
    f: Option<Filter>,
    values_len: nat,
) -> Seq<bool> {
    match (pv, f) {
        (None, None) => all_set(values_len),
        (None, Some(f)) => all_set(f.spec_num_rows()),
        (Some(pv), None) => pv,
        (Some(pv), Some(Filter::Range { start, end })) => pv.subrange(start as int, end as int),
        (Some(pv), Some(Filter::Mask(m))) => mask_select(pv, m@),
    }
}

/// The page validity trimmed to the rows the call actually touches.
pub open spec fn constrained_validity(
    values_len: nat,
    pv: Option<Seq<bool>>,
    f: Option<Filter>,
) -> Option<Seq<bool>> {
    match pv {
        None => None,
        Some(pv) => {
            let num_unfiltered_rows = match f {
                None => pv.len(),
                Some(f) => f.spec_max_offset(),
            };
            if pv.len() > num_unfiltered_rows {
                Some(pv.take(num_unfiltered_rows as int))
            } else {
                Some(pv)
            }
        },
    }
}

/// What a call may assume of its arguments: filter ranges are ordered and lie
/// within the page, a mask filter spans the page validity, and the stream
/// holds an index for every non-null row it covers.
pub open spec fn dispatch_pre(values_len: nat, pv: Option<Seq<bool>>, f: Option<Filter>) -> bool {
    match (f, pv) {
        (None, None) => true,
        (None, Some(pv)) => count_ones(pv) <= values_len,
        (Some(Filter::Range { start, end }), None) => start <= end && end <= values_len,
        (Some(Filter::Mask(m)), None) => m@.len() <= values_len,
        (Some(Filter::Range { start, end }), Some(pv)) => start <= end && end <= pv.len()
            && count_ones(pv.take(end as int)) <= values_len,
        (Some(Filter::Mask(m)), Some(pv)) => m@.len() == pv.len() && count_ones(pv) <= values_len,
    }
}

/// How many output rows one call appends.
pub open spec fn output_rows(values_len: nat, pv: Option<Seq<bool>>, f: Option<Filter>) -> nat {
    match (f, pv) {
        (None, None) => values_len,
        (None, Some(pv)) => pv.len(),
        (Some(f), _) => f.spec_num_rows(),
    }
}

/// The values one call appends, by the dispatch table: the reading that fits
/// the (filter, validity) class, over the constrained page validity.
pub open spec fn decoded_values<B: DictValue>(
    dict: Seq<B>,
    stream: Seq<u32>,
    pv: Option<Seq<bool>>,
    f: Option<Filter>,
) -> Seq<B> {
    let cpv = constrained_validity(stream.len(), pv, f);
    match (f, cpv) {
        (None, None) => lookup_seq(stream, dict),
        (Some(Filter::Range { start, end }), None) => if start == 0 {
            lookup_seq(stream.take(end as int), dict)
        } else {
            masked_lookup(dict, stream.take(end as int), range_mask(start as nat, end as nat))
        },
        (None, Some(cpv)) => inflate(dict, stream.take(count_ones(cpv) as int), cpv),
        (Some(Filter::Range { start, end }), Some(cpv)) => if start == 0 {
            inflate(dict, stream.take(count_ones(cpv) as int), cpv)
        } else {
            gather(
                dict,
                stream.take(count_ones(cpv) as int),
                cpv,
                range_mask(start as nat, end as nat),
            )
        },
        (Some(Filter::Mask(m)), None) => masked_lookup(dict, stream.take(m@.len() as int), m@),
        (Some(Filter::Mask(m)), Some(cpv)) => gather(
            dict,
            stream.take(count_ones(cpv) as int),
            cpv,
            m@,
        ),
    }
}

/// When one call succeeds: every stream index it consumes lies inside the
/// dictionary.
pub open spec fn decode_ok(
    dict_len: nat,
    stream: Seq<u32>,
    pv: Option<Seq<bool>>,
    f: Option<Filter>,
) -> bool {
    let cpv = constrained_validity(stream.len(), pv, f);
    match (f, cpv) {
        (None, None) => dict_ok(stream, dict_len),
        (Some(Filter::Range { start, end }), None) => dict_ok(stream.take(end as int), dict_len),
        (Some(Filter::Mask(m)), None) => dict_ok(stream.take(m@.len() as int), dict_len),
        (_, Some(cpv)) => dict_ok(stream.take(count_ones(cpv) as int), dict_len),
    }
}

/// The appended validity and the appended values agree in length: the output
/// row count of the call.
pub proof fn lemma_decoded_lengths<B: DictValue>(
    dict: Seq<B>,
    stream: Seq<u32>,
    pv: Option<Seq<bool>>,
    f: Option<Filter>,
)
    requires
        dispatch_pre(stream.len(), pv, f),
    ensures
        decoded_values(dict, stream, pv, f).len() == output_rows(stream.len(), pv, f),
        appended_validity(pv, f, stream.len()).len() == output_rows(stream.len(), pv, f),
{
    let cpv = constrained_validity(stream.len(), pv, f);
    match (f, pv) {
        (None, None) => {},
        (None, Some(pvs)) => {
            lemma_inflate_len(dict, stream.take(count_ones(pvs) as int), pvs);
        },
        (Some(Filter::Range { start, end }), None) => {
            if start > 0 {
                lemma_masked_lookup_len(
                    dict,
                    stream.take(end as int),
                    range_mask(start as nat, end as nat),
                );
                lemma_count_range_mask(start as nat, end as nat);
            }
        },
        (Some(Filter::Mask(m)), None) => {
            lemma_masked_lookup_len(dict, stream.take(m@.len() as int), m@);
        },
        (Some(Filter::Range { start, end }), Some(pvs)) => {
            let c = cpv.unwrap();
            assert(c =~= pvs.take(end as int));
            if start == 0 {
                lemma_inflate_len(dict, stream.take(count_ones(c) as int), c);
            } else {
                lemma_gather_len(
                    dict,
                    stream.take(count_ones(c) as int),
                    c,
                    range_mask(start as nat, end as nat),
                );
                lemma_count_range_mask(start as nat, end as nat);
            }
        },
        (Some(Filter::Mask(m)), Some(pvs)) => {
            let c = cpv.unwrap();
            assert(c =~= pvs);
            lemma_gather_len(dict, stream.take(count_ones(c) as int), c, m@);
            lemma_mask_select_len(pvs, m@);
        },
    }
}

/// Grow the output validity bitmap by the validity bits of the rows this call
/// emits.
pub(crate) fn append_validity(
    page_validity: Option<&Bitmap>,
    filter: Option<&Filter>,
    validity: &mut Bitmap,
    values_len: usize,
)
    requires
        match (page_validity, filter) {
            (Some(pv), Some(f)) => match f {
                Filter::Range { start, end } => *start <= *end && *end <= pv@.len(),
                Filter::Mask(m) => m@.len() == pv@.len(),
            },
            (None, Some(f)) => f.wf(),
            _ => true,
        },
    ensures
        final(validity)@ == old(validity)@ + appended_validity(
            opt_bitmap_view(page_validity),
            opt_filter_read(filter),
            values_len as nat,
        ),
{
    match (page_validity, filter) {
        (None, None) => {
            validity.extend_constant(values_len, true);
            proof {
                assert(Seq::new(values_len as nat, |i: int| true) =~= all_set(values_len as nat));
            }
        },
        (None, Some(f)) => {
            let n = f.num_rows();
            validity.extend_constant(n, true);
            proof {
                assert(Seq::new(n as nat, |i: int| true) =~= all_set(f.spec_num_rows()));
            }
        },
        (Some(pv), None) => {
            validity.extend_from_bitmap(pv);
        },
        (Some(pv), Some(f)) => {
            match f {
                Filter::Range { start, end } => {
                    let sliced = pv.sliced(*start, *end - *start);
                    validity.extend_from_bitmap(&sliced);
                },
                Filter::Mask(m) => {
                    let gated = filter_bitmap(pv, m);
                    validity.extend_from_bitmap(&gated);
                },
            }
        },
    }
}

/// Trim the page validity to the rows this call touches: with a filter, up to
/// the filter's highest offset; without, the whole page.
pub(crate) fn constrain_page_validity(
    values_len: usize,
    page_validity: Option<&Bitmap>,
    filter: Option<&Filter>,
) -> (r: Option<Bitmap>)
    ensures
        match (r, constrained_validity(
            values_len as nat,
            opt_bitmap_view(page_validity),
            opt_filter_read(filter),
        )) {
            (Some(b), Some(s)) => b@ == s,
            (None, None) => true,
            _ => false,
        },
{
    let num_unfiltered_rows = match (&filter, &page_validity) {
        (None, None) => values_len,
        (None, Some(pv)) => pv.len(),
        (Some(f), _) => f.max_offset(),
    };
    match page_validity {
        None => None,
        Some(pv) => {
            if pv.len() > num_unfiltered_rows {
                let r = pv.sliced(0, num_unfiltered_rows);
                proof {
                    assert(pv@.subrange(0, num_unfiltered_rows as int) =~= pv@.take(
                        num_unfiltered_rows as int,
                    ));
                }
                Some(r)
            } else {
                Some(pv.sliced(0, pv.len()))
            }
        },
    }
}

/// Classify the call by (filter, page validity), grow the output validity for
/// an optional page, constrain the page validity, and route to the kernel the
/// dispatch table names.
pub fn decode_dict_dispatch<B: DictValue>(
    values: HybridRleDecoder,
    dict: &[B],
    is_optional: bool,
    page_validity: Option<&Bitmap>,
    filter: Option<Filter>,
    validity: &mut Bitmap,
    target: &mut Vec<B>,
) -> (r: ParquetResult<()>)
    requires
        values.wf(),
        dispatch_pre(values@.len(), opt_bitmap_view(page_validity), filter),
        is_optional ==> old(validity)@.len() == old(target)@.len(),
    ensures
        is_optional ==> final(validity)@ == old(validity)@ + appended_validity(
            opt_bitmap_view(page_validity),
            filter,
            values@.len(),
        ),
        !is_optional ==> final(validity)@ == old(validity)@,
        r is Ok <==> decode_ok(dict@.len(), values@, opt_bitmap_view(page_validity), filter),
        r is Ok ==> final(target)@ == old(target)@ + decoded_values(
            dict@,
            values@,
            opt_bitmap_view(page_validity),
            filter,
        ),
        r is Ok ==> final(target)@.len() == old(target)@.len() + output_rows(
            values@.len(),
            opt_bitmap_view(page_validity),
            filter,
        ),
        r is Ok && is_optional ==> final(validity)@.len() == final(target)@.len(),
        r is Err ==> final(target)@ == old(target)@ && r == Err::<(), ParquetError>(
            ParquetError::OutOfBoundsDictIndex,
        ),
{
    let ghost vals0 = values@;
    let ghost pv0 = opt_bitmap_view(page_validity);
    let values_len = values.len();
    let filter_ref = match &filter {
        Some(f) => Some(f),
        None => None,
    };
    if is_optional {
        append_validity(page_validity, filter_ref, validity, values_len);
    }
    let page_validity = constrain_page_validity(values_len, page_validity, filter_ref);
    proof {
        lemma_decoded_lengths(dict@, vals0, pv0, filter);
    }
    match (filter, page_validity) {
        (None, None) => decode_required_dict(values, dict, target),
        (Some(Filter::Range { start, end }), None) => {
            if start == 0 {
                let mut values = values;
                values.limit_to(end);
                decode_required_dict(values, dict, target)
            } else {
                let mask = filter_from_range(start, end);
                decode_masked_required_dict(values, dict, &mask, target)
            }
        },
        (None, Some(pv)) => decode_optional_dict(values, dict, &pv, target),
        (Some(Filter::Range { start, end }), Some(pv)) => {
            proof {
                assert(pv@ =~= pv0.unwrap().take(end as int));
            }
            if start == 0 {
                decode_optional_dict(values, dict, &pv, target)
            } else {
                let mask = filter_from_range(start, end);
                decode_masked_optional_dict(values, dict, &mask, &pv, target)
            }
        },
        (Some(Filter::Mask(m)), None) => decode_masked_required_dict(values, dict, &m, target),
        (Some(Filter::Mask(m)), Some(pv)) => {
            proof {
                assert(pv@ =~= pv0.unwrap());
            }
            decode_masked_optional_dict(values, dict, &m, &pv, target)
        },
    }
}

/// Decode one dictionary-encoded page: the public entry point. Appends the
/// materialised values to `target` and, for an optional page, the matching
/// validity bits to `validity`.
pub fn decode_dict<B: DictValue>(
    values: HybridRleDecoder,
    dict: &[B],
    is_optional: bool,
    page_validity: Option<&Bitmap>,
    filter: Option<Filter>,
    validity: &mut Bitmap,
    target: &mut Vec<B>,
) -> (r: ParquetResult<()>)
    requires
        values.wf(),
        dispatch_pre(values@.len(), opt_bitmap_view(page_validity), filter),
        is_optional ==> old(validity)@.len() == old(target)@.len(),
    ensures
        is_optional ==> final(validity)@ == old(validity)@ + appended_validity(
            opt_bitmap_view(page_validity),
            filter,
            values@.len(),
        ),
        !is_optional ==> final(validity)@ == old(validity)@,
        r is Ok <==> decode_ok(dict@.len(), values@, opt_bitmap_view(page_validity), filter),
        r is Ok ==> final(target)@ == old(target)@ + decoded_values(
            dict@,
            values@,
            opt_bitmap_view(page_validity),
            filter,
        ),
        r is Ok ==> final(target)@.len() == old(target)@.len() + output_rows(
            values@.len(),
            opt_bitmap_view(page_validity),
            filter,
        ),
        r is Ok && is_optional ==> final(validity)@.len() == final(target)@.len(),
        r is Err ==> final(target)@ == old(target)@ && r == Err::<(), ParquetError>(
            ParquetError::OutOfBoundsDictIndex,
        ),
{
    decode_dict_dispatch(values, dict, is_optional, page_validity, filter, validity, target)
}

} // verus!
