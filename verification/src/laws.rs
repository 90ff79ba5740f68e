//! The decoder's algebra: how the four readings of a decode relate. Each law
//! here is stated for every dictionary, index stream, validity bitmap and
//! filter, and proved once and for all.

use vstd::prelude::*;

use crate::bitmap::all_set;
use crate::bitmap::count_ones;
use crate::bitmap::lemma_count_all_set;
use crate::bitmap::lemma_count_ones_take_full;
use crate::bitmap::lemma_count_ones_take_mono;
use crate::bitmap::lemma_count_ones_take_step;
use crate::bitmap::lemma_nth_set_pos;
use crate::bitmap::mask_select;
use crate::bitmap::nth_set_pos;
use crate::dict_encoded::decoded_values;
use crate::dict_encoded::dict_ok;
use crate::dict_encoded::dispatch_pre;
use crate::dict_encoded::gather;
use crate::dict_encoded::inflate;
use crate::dict_encoded::lookup_seq;
use crate::dict_encoded::masked_lookup;
use crate::filter::range_mask;
use crate::filter::Filter;
use crate::value::DictValue;

verus! {

/// An inflated page has one output slot per validity bit.
pub proof fn lemma_inflate_len<B: DictValue>(dict: Seq<B>, idx: Seq<u32>, validity: Seq<bool>)
    ensures
        inflate(dict, idx, validity).len() == validity.len(),
    decreases validity.len(),
{
    if validity.len() > 0 {
        lemma_inflate_len(dict, idx, validity.drop_last());
    }
}

/// A masked required decode emits one value per set filter bit.
pub proof fn lemma_masked_lookup_len<B>(dict: Seq<B>, idx: Seq<u32>, filter: Seq<bool>)
    ensures
        masked_lookup(dict, idx, filter).len() == count_ones(filter),
    decreases filter.len(),
{
    if filter.len() > 0 {
        lemma_masked_lookup_len(dict, idx, filter.drop_last());
    }
}

/// A masked optional decode emits one value per set filter bit.
pub proof fn lemma_gather_len<B: DictValue>(
    dict: Seq<B>,
    idx: Seq<u32>,
    validity: Seq<bool>,
    filter: Seq<bool>,
)
    ensures
        gather(dict, idx, validity, filter).len() == count_ones(filter),
    decreases filter.len(),
{
    if filter.len() > 0 {
        lemma_gather_len(dict, idx, validity.drop_last(), filter.drop_last());
    }
}

/// Selecting by a mask keeps one element per set bit.
pub proof fn lemma_mask_select_len<A>(s: Seq<A>, m: Seq<bool>)
    ensures
        mask_select(s, m).len() == count_ones(m),
    decreases m.len(),
{
    if m.len() > 0 {
        lemma_mask_select_len(s, m.drop_last());
    }
}

/// Selection reads the source only below the mask's length.
pub proof fn lemma_mask_select_agree<A>(s1: Seq<A>, s2: Seq<A>, m: Seq<bool>)
    requires
        forall|k: int| 0 <= k < m.len() ==> s1[k] == s2[k],
    ensures
        mask_select(s1, m) == mask_select(s2, m),
    decreases m.len(),
{
    if m.len() > 0 {
        lemma_mask_select_agree(s1, s2, m.drop_last());
    }
}

/// A mask with no set bit selects nothing.
pub proof fn lemma_mask_select_all_clear<A>(s: Seq<A>, m: Seq<bool>)
    requires
        forall|k: int| 0 <= k < m.len() ==> !(#[trigger] m[k]),
    ensures
        mask_select(s, m) == Seq::<A>::empty(),
    decreases m.len(),
{
    if m.len() > 0 {
        assert(!m[m.len() - 1]);
        lemma_mask_select_all_clear(s, m.drop_last());
    }
}

/// Selecting by a range mask is slicing.
pub proof fn lemma_mask_select_range<A>(s: Seq<A>, start: nat, end: nat)
    requires
        start <= end <= s.len(),
    ensures
        mask_select(s, range_mask(start, end)) == s.subrange(start as int, end as int),
    decreases end,
{
    if end == start {
        assert forall|k: int| 0 <= k < range_mask(start, end).len() implies !(
        #[trigger] range_mask(start, end)[k]) by {}
        lemma_mask_select_all_clear(s, range_mask(start, end));
        assert(s.subrange(start as int, end as int) =~= Seq::<A>::empty());
    } else {
        assert(range_mask(start, end).drop_last() =~= range_mask(start, (end - 1) as nat));
        assert(range_mask(start, end).last() == (start <= end - 1));
        lemma_mask_select_range(s, start, (end - 1) as nat);
        assert(s.subrange(start as int, end as int) =~= s.subrange(
            start as int,
            end - 1,
        ).push(s[end - 1]));
    }
}

/// Fast-path equivalence: over an all-set validity bitmap the optional reading
/// is the required reading of the first `n` indices.
pub proof fn lemma_optional_matches_required<B: DictValue>(dict: Seq<B>, idx: Seq<u32>, n: nat)
    requires
        n <= idx.len(),
    ensures
        inflate(dict, idx, all_set(n)) == lookup_seq(idx.take(n as int), dict),
    decreases n,
{
    if n == 0 {
        assert(lookup_seq(idx.take(0), dict) =~= Seq::<B>::empty());
    } else {
        lemma_optional_matches_required(dict, idx, (n - 1) as nat);
        assert(all_set(n).drop_last() =~= all_set((n - 1) as nat));
        lemma_count_all_set((n - 1) as nat);
        assert(all_set(n).last());
        assert(lookup_seq(idx.take(n as int), dict) =~= lookup_seq(idx.take(n - 1), dict).push(
            dict[idx[n - 1] as int],
        ));
    }
}

/// Fast-path equivalence: over an all-set filter the masked required reading
/// is the required reading of the first `n` indices.
pub proof fn lemma_masked_matches_unmasked<B>(dict: Seq<B>, idx: Seq<u32>, n: nat)
    requires
        n <= idx.len(),
    ensures
        masked_lookup(dict, idx, all_set(n)) == lookup_seq(idx.take(n as int), dict),
    decreases n,
{
    if n == 0 {
        assert(lookup_seq(idx.take(0), dict) =~= Seq::<B>::empty());
    } else {
        lemma_masked_matches_unmasked(dict, idx, (n - 1) as nat);
        assert(all_set(n).drop_last() =~= all_set((n - 1) as nat));
        assert(all_set(n).last());
        assert(lookup_seq(idx.take(n as int), dict) =~= lookup_seq(idx.take(n - 1), dict).push(
            dict[idx[n - 1] as int],
        ));
    }
}

/// Fast-path equivalence: over an all-set filter the masked optional reading
/// is the optional reading.
pub proof fn lemma_gather_matches_inflate<B: DictValue>(
    dict: Seq<B>,
    idx: Seq<u32>,
    validity: Seq<bool>,
)
    ensures
        gather(dict, idx, validity, all_set(validity.len())) == inflate(dict, idx, validity),
    decreases validity.len(),
{
    if validity.len() > 0 {
        assert(all_set(validity.len()).drop_last() =~= all_set(validity.drop_last().len()));
        assert(all_set(validity.len()).last());
        lemma_gather_matches_inflate(dict, idx, validity.drop_last());
    }
}

/// Fast-path equivalence: over an all-set validity bitmap the masked optional
/// reading is the masked required reading.
pub proof fn lemma_gather_matches_masked<B: DictValue>(
    dict: Seq<B>,
    idx: Seq<u32>,
    filter: Seq<bool>,
)
    ensures
        gather(dict, idx, all_set(filter.len()), filter) == masked_lookup(dict, idx, filter),
    decreases filter.len(),
{
    if filter.len() > 0 {
        let n = filter.len();
        assert(all_set(n).drop_last() =~= all_set((n - 1) as nat));
        assert(all_set(n).last());
        lemma_count_all_set((n - 1) as nat);
        lemma_gather_matches_masked(dict, idx, filter.drop_last());
    }
}

/// Filter composition: a masked required decode equals the unfiltered
/// required decode of the same rows, indexed by the mask.
pub proof fn lemma_masked_is_filtered_required<B>(dict: Seq<B>, idx: Seq<u32>, filter: Seq<bool>)
    requires
        filter.len() <= idx.len(),
    ensures
        masked_lookup(dict, idx, filter) == mask_select(
            lookup_seq(idx.take(filter.len() as int), dict),
            filter,
        ),
    decreases filter.len(),
{
    if filter.len() > 0 {
        let n = filter.len() as int;
        lemma_masked_is_filtered_required(dict, idx, filter.drop_last());
        let s_full = lookup_seq(idx.take(n), dict);
        let s_prev = lookup_seq(idx.take(n - 1), dict);
        assert forall|k: int| 0 <= k < filter.drop_last().len() implies s_full[k] == s_prev[k] by {
            assert(idx.take(n)[k] == idx.take(n - 1)[k]);
        }
        lemma_mask_select_agree(s_full, s_prev, filter.drop_last());
        assert(s_full[n - 1] == dict[idx[n - 1] as int]);
    }
}

/// Filter composition: a masked optional decode equals the unfiltered
/// optional decode of the same rows, indexed by the mask.
pub proof fn lemma_gather_is_filtered_optional<B: DictValue>(
    dict: Seq<B>,
    idx: Seq<u32>,
    validity: Seq<bool>,
    filter: Seq<bool>,
)
    requires
        validity.len() == filter.len(),
    ensures
        gather(dict, idx, validity, filter) == mask_select(inflate(dict, idx, validity), filter),
    decreases filter.len(),
{
    if filter.len() > 0 {
        let n = filter.len() as int;
        lemma_gather_is_filtered_optional(dict, idx, validity.drop_last(), filter.drop_last());
        let s_full = inflate(dict, idx, validity);
        let s_prev = inflate(dict, idx, validity.drop_last());
        lemma_inflate_len(dict, idx, validity);
        lemma_inflate_len(dict, idx, validity.drop_last());
        assert forall|k: int| 0 <= k < filter.drop_last().len() implies s_full[k] == s_prev[k] by {
            assert(s_full == s_prev.push(
                if validity.last() {
                    dict[idx[count_ones(validity.drop_last()) as int] as int]
                } else {
                    B::spec_zeroed()
                },
            ));
        }
        lemma_mask_select_agree(s_full, s_prev, filter.drop_last());
    }
}

/// What each output slot of an optional decode holds: the dictionary value of
/// the next index at a set validity bit, the zeroed padding value at a cleared
/// one.
pub proof fn lemma_inflate_at<B: DictValue>(dict: Seq<B>, idx: Seq<u32>, validity: Seq<bool>)
    ensures
        inflate(dict, idx, validity).len() == validity.len(),
        forall|j: int|
            0 <= j < validity.len() && validity[j] ==> #[trigger] inflate(dict, idx, validity)[j]
                == dict[idx[count_ones(validity.take(j)) as int] as int],
        forall|j: int|
            0 <= j < validity.len() && !validity[j] ==> #[trigger] inflate(dict, idx, validity)[j]
                == B::spec_zeroed(),
    decreases validity.len(),
{
    lemma_inflate_len(dict, idx, validity);
    if validity.len() > 0 {
        let n = validity.len() as int;
        let prev = validity.drop_last();
        lemma_inflate_at(dict, idx, prev);
        assert forall|j: int| 0 <= j < n implies ({
            &&& validity[j] ==> #[trigger] inflate(dict, idx, validity)[j] == dict[idx[count_ones(
                validity.take(j),
            ) as int] as int]
            &&& !validity[j] ==> inflate(dict, idx, validity)[j] == B::spec_zeroed()
        }) by {
            if j < n - 1 {
                assert(inflate(dict, idx, validity)[j] == inflate(dict, idx, prev)[j]);
                assert(prev.take(j) =~= validity.take(j));
                assert(prev[j] == validity[j]);
            } else {
                assert(prev =~= validity.take(n - 1));
            }
        }
    }
}

/// Round-trip: a page that encodes the sequence `s` over validity `v` — the
/// value of `s` at every set bit of `v` stands in the dictionary at the next
/// stream index — decodes back to `s` at every set bit of `v`, and to the
/// zeroed padding value at every cleared bit.
pub proof fn lemma_round_trip<B: DictValue>(
    dict: Seq<B>,
    idx: Seq<u32>,
    validity: Seq<bool>,
    s: Seq<B>,
)
    requires
        s.len() == validity.len(),
        forall|j: int|
            0 <= j < validity.len() && validity[j] ==> dict[idx[count_ones(
                #[trigger] validity.take(j),
            ) as int] as int] == s[j],
    ensures
        inflate(dict, idx, validity).len() == s.len(),
        forall|j: int|
            0 <= j < validity.len() && validity[j] ==> #[trigger] inflate(dict, idx, validity)[j]
                == s[j],
        forall|j: int|
            0 <= j < validity.len() && !validity[j] ==> #[trigger] inflate(dict, idx, validity)[j]
                == B::spec_zeroed(),
{
    lemma_inflate_at(dict, idx, validity);
}

/// What each kept element of a selection is: the source element at the
/// position of the matching set mask bit.
pub proof fn lemma_mask_select_at<A>(s: Seq<A>, m: Seq<bool>)
    requires
        m.len() <= s.len(),
    ensures
        mask_select(s, m).len() == count_ones(m),
        forall|r: int|
            0 <= r < count_ones(m) ==> #[trigger] mask_select(s, m)[r] == s[nth_set_pos(m, r)],
    decreases m.len(),
{
    lemma_mask_select_len(s, m);
    if m.len() > 0 {
        let prev = m.drop_last();
        lemma_mask_select_at(s, prev);
        lemma_mask_select_len(s, prev);
        assert forall|r: int| 0 <= r < count_ones(m) implies #[trigger] mask_select(s, m)[r] == s[
        nth_set_pos(m, r)] by {
            if r < count_ones(prev) {
                assert(mask_select(s, m)[r] == mask_select(s, prev)[r]);
            } else {
                assert(m.last());
                assert(r == count_ones(prev));
                assert(nth_set_pos(m, r) == m.len() - 1);
            }
        }
    }
}

/// An optional decode of a validity prefix is the prefix of the decode.
pub proof fn lemma_inflate_prefix<B: DictValue>(
    dict: Seq<B>,
    idx: Seq<u32>,
    validity: Seq<bool>,
    n: int,
)
    requires
        0 <= n <= validity.len(),
    ensures
        inflate(dict, idx, validity.take(n)) == inflate(dict, idx, validity).take(n),
{
    lemma_inflate_at(dict, idx, validity);
    lemma_inflate_at(dict, idx, validity.take(n));
    assert forall|j: int| 0 <= j < n implies #[trigger] inflate(dict, idx, validity.take(n))[j]
        == inflate(dict, idx, validity).take(n)[j] by {
        assert(validity.take(n).take(j) =~= validity.take(j));
        assert(validity.take(n)[j] == validity[j]);
        assert(inflate(dict, idx, validity).take(n)[j] == inflate(dict, idx, validity)[j]);
    }
    assert(inflate(dict, idx, validity.take(n)) =~= inflate(dict, idx, validity).take(n));
}

/// An optional decode reads the stream only below the validity's set-bit
/// count.
pub proof fn lemma_inflate_idx_agree<B: DictValue>(
    dict: Seq<B>,
    idx1: Seq<u32>,
    idx2: Seq<u32>,
    validity: Seq<bool>,
)
    requires
        forall|c: int| 0 <= c < count_ones(validity) ==> #[trigger] idx1[c] == idx2[c],
    ensures
        inflate(dict, idx1, validity) == inflate(dict, idx2, validity),
{
    lemma_inflate_at(dict, idx1, validity);
    lemma_inflate_at(dict, idx2, validity);
    assert forall|j: int| 0 <= j < validity.len() implies #[trigger] inflate(dict, idx1, validity)[
    j] == inflate(dict, idx2, validity)[j] by {
        if validity[j] {
            lemma_count_ones_take_step(validity, j);
            lemma_count_ones_take_mono(validity, j + 1, validity.len() as int);
            lemma_count_ones_take_full(validity);
            assert(idx1[count_ones(validity.take(j)) as int] == idx2[count_ones(
                validity.take(j),
            ) as int]);
        }
    }
    assert(inflate(dict, idx1, validity) =~= inflate(dict, idx2, validity));
}

/// Null padding: what each output slot of a masked optional decode holds. The
/// `r`-th output comes from the `r`-th selected row; when that row is null,
/// the slot holds the zeroed padding value.
pub proof fn lemma_null_padding<B: DictValue>(
    dict: Seq<B>,
    idx: Seq<u32>,
    validity: Seq<bool>,
    filter: Seq<bool>,
)
    requires
        validity.len() == filter.len(),
    ensures
        gather(dict, idx, validity, filter).len() == count_ones(filter),
        forall|r: int|
            0 <= r < count_ones(filter) ==> #[trigger] gather(dict, idx, validity, filter)[r]
                == if validity[nth_set_pos(filter, r)] {
                dict[idx[count_ones(validity.take(nth_set_pos(filter, r))) as int] as int]
            } else {
                B::spec_zeroed()
            },
{
    lemma_gather_is_filtered_optional(dict, idx, validity, filter);
    lemma_inflate_at(dict, idx, validity);
    lemma_inflate_len(dict, idx, validity);
    lemma_mask_select_at(inflate(dict, idx, validity), filter);
    lemma_gather_len(dict, idx, validity, filter);
    assert forall|r: int| 0 <= r < count_ones(filter) implies #[trigger] gather(
        dict,
        idx,
        validity,
        filter,
    )[r] == if validity[nth_set_pos(filter, r)] {
        dict[idx[count_ones(validity.take(nth_set_pos(filter, r))) as int] as int]
    } else {
        B::spec_zeroed()
    } by {
        lemma_nth_set_pos(filter, r);
        assert(gather(dict, idx, validity, filter)[r] == inflate(dict, idx, validity)[nth_set_pos(
            filter,
            r,
        )]);
    }
}

/// Empty-dict guard: no index satisfies an empty dictionary, so a decode that
/// must consume at least one index fails.
pub proof fn lemma_empty_dict_guard(idx: Seq<u32>)
    requires
        idx.len() > 0,
    ensures
        !dict_ok(idx, 0),
{
    assert(!((idx[0] as nat) < 0));
}

/// Filter composition for a mask: a decode with a mask filter equals the
/// unfiltered decode of the same page indexed by the mask.
pub proof fn lemma_mask_filter_composition<B: DictValue>(
    dict: Seq<B>,
    stream: Seq<u32>,
    pv: Option<Seq<bool>>,
    f: Filter,
)
    requires
        f matches Filter::Mask(_),
        dispatch_pre(stream.len(), pv, Some(f)),
        dispatch_pre(stream.len(), pv, None),
    ensures
        decoded_values(dict, stream, pv, Some(f)) == mask_select(
            decoded_values(dict, stream, pv, None),
            f.spec_mask(),
        ),
{
    let m = f.spec_mask();
    match pv {
        None => {
            let fl = m.len() as int;
            lemma_masked_is_filtered_required(dict, stream.take(fl), m);
            assert(stream.take(fl).take(fl) =~= stream.take(fl));
            assert forall|k: int| 0 <= k < m.len() implies lookup_seq(stream.take(fl), dict)[k]
                == lookup_seq(stream, dict)[k] by {
                assert(stream.take(fl)[k] == stream[k]);
            }
            lemma_mask_select_agree(
                lookup_seq(stream.take(fl), dict),
                lookup_seq(stream, dict),
                m,
            );
        },
        Some(pvs) => {
            let k = count_ones(pvs) as int;
            lemma_gather_is_filtered_optional(dict, stream.take(k), pvs, m);
        },
    }
}

/// Filter composition for a range: a decode with a range filter equals the
/// unfiltered decode of the same page sliced to the range.
pub proof fn lemma_range_filter_composition<B: DictValue>(
    dict: Seq<B>,
    stream: Seq<u32>,
    pv: Option<Seq<bool>>,
    start: usize,
    end: usize,
)
    requires
        dispatch_pre(stream.len(), pv, Some(Filter::Range { start, end })),
        dispatch_pre(stream.len(), pv, None),
    ensures
        decoded_values(dict, stream, pv, Some(Filter::Range { start, end })) == decoded_values(
            dict,
            stream,
            pv,
            None,
        ).subrange(start as int, end as int),
{
    let s = start as int;
    let e = end as int;
    match pv {
        None => {
            let whole = lookup_seq(stream, dict);
            if start == 0 {
                assert(lookup_seq(stream.take(e), dict) =~= whole.subrange(0, e));
            } else {
                lemma_masked_is_filtered_required(
                    dict,
                    stream.take(e),
                    range_mask(start as nat, end as nat),
                );
                assert(stream.take(e).take(e) =~= stream.take(e));
                lemma_mask_select_range(lookup_seq(stream.take(e), dict), start as nat, end as nat);
                assert(lookup_seq(stream.take(e), dict).subrange(s, e) =~= whole.subrange(s, e));
            }
        },
        Some(pvs) => {
            let k = count_ones(pvs) as int;
            let kp = count_ones(pvs.take(e)) as int;
            let cpv = pvs.take(e);
            let whole = inflate(dict, stream.take(k), pvs);
            lemma_inflate_len(dict, stream.take(k), pvs);
            lemma_count_ones_take_mono(pvs, e, pvs.len() as int);
            lemma_count_ones_take_full(pvs);
            assert(kp <= k);
            assert forall|c: int| 0 <= c < count_ones(cpv) implies #[trigger] stream.take(kp)[c]
                == stream.take(k)[c] by {
                assert(stream.take(kp)[c] == stream[c]);
                assert(stream.take(k)[c] == stream[c]);
            }
            lemma_inflate_idx_agree(dict, stream.take(kp), stream.take(k), cpv);
            lemma_inflate_prefix(dict, stream.take(k), pvs, e);
            assert(inflate(dict, stream.take(kp), cpv) == whole.take(e));
            // The constrained validity is the page validity cut at the range
            // end, whether or not the cut shortens it.
            assert(match crate::dict_encoded::constrained_validity(
                stream.len(),
                pv,
                Some(Filter::Range { start, end }),
            ) {
                Some(c) => c =~= cpv,
                None => false,
            });
            if start == 0 {
                assert(whole.take(e) =~= whole.subrange(0, e));
            } else {
                lemma_gather_is_filtered_optional(
                    dict,
                    stream.take(kp),
                    cpv,
                    range_mask(start as nat, end as nat),
                );
                lemma_mask_select_range(whole.take(e), start as nat, end as nat);
                assert(whole.take(e).subrange(s, e) =~= whole.subrange(s, e));
            }
        },
    }
}

} // verus!
