use dict_decode::bitmap::filter_bitmap;
use dict_decode::bitmap::Bitmap;
use dict_decode::dict_encoded::decode_dict;
use dict_decode::dict_encoded::decode_dict_dispatch;
use dict_decode::dict_encoded::decode_masked_optional_dict;
use dict_decode::dict_encoded::decode_masked_required_dict;
use dict_decode::dict_encoded::decode_optional_dict;
use dict_decode::dict_encoded::decode_required_dict;
use dict_decode::dict_encoded::oob_dict_idx;
use dict_decode::dict_encoded::verify_dict_indices;
use dict_decode::dict_encoded::ParquetError;
use dict_decode::filter::filter_from_range;
use dict_decode::filter::Filter;
use dict_decode::hybrid_rle::HybridRleChunk;
use dict_decode::hybrid_rle::HybridRleDecoder;

fn bm(bits: &[bool]) -> Bitmap {
    Bitmap::from_bools(bits.to_vec())
}

fn stream(chunks: Vec<HybridRleChunk>) -> HybridRleDecoder {
    HybridRleDecoder::new(chunks).unwrap()
}

#[test]
fn length_law_unfiltered() {
    let dict: Vec<u32> = vec![1, 2];
    let values = stream(vec![HybridRleChunk::Bitpacked(vec![0, 1, 0, 1, 1])]);
    let start = 2;
    let mut validity = Bitmap::new();
    let mut target: Vec<u32> = vec![9, 9];
    decode_dict(values, &dict, true, None, None, &mut validity, &mut target).unwrap();
    assert_eq!(target.len(), start + 5);
    assert_eq!(validity.len(), target.len() - start);
}

#[test]
fn length_law_range_filter() {
    let dict: Vec<u32> = vec![1, 2];
    let values = stream(vec![HybridRleChunk::Rle(0, 6)]);
    let mut validity = Bitmap::new();
    let mut target: Vec<u32> = Vec::new();
    decode_dict(
        values,
        &dict,
        true,
        None,
        Some(Filter::Range { start: 1, end: 4 }),
        &mut validity,
        &mut target,
    )
    .unwrap();
    assert_eq!(target.len(), 3);
    assert_eq!(validity.len(), 3);
}

#[test]
fn length_law_mask_filter_with_validity() {
    let dict: Vec<u32> = vec![1, 2];
    let values = stream(vec![HybridRleChunk::Bitpacked(vec![0, 1, 1])]);
    let page_validity = bm(&[true, false, true, false, true]);
    let mask = bm(&[true, true, false, false, true]);
    let mut validity = Bitmap::new();
    let mut target: Vec<u32> = Vec::new();
    decode_dict(
        values,
        &dict,
        true,
        Some(&page_validity),
        Some(Filter::Mask(mask)),
        &mut validity,
        &mut target,
    )
    .unwrap();
    // The mask selects 3 rows.
    assert_eq!(target.len(), 3);
    assert_eq!(validity.len(), 3);
}

#[test]
fn round_trip_reconstructs_values_at_set_bits() {
    // Encode the sequence [30, _, 10, 20, _, 30] (nulls at rows 1 and 4) over
    // dict [10, 20, 30] and decode it back.
    let dict: Vec<u32> = vec![10, 20, 30];
    let row_values: Vec<Option<u32>> = vec![
        Some(30),
        None,
        Some(10),
        Some(20),
        None,
        Some(30),
    ];
    let validity_bits: Vec<bool> = row_values.iter().map(|v| v.is_some()).collect();
    let indices: Vec<u32> = row_values
        .iter()
        .filter_map(|v| v.map(|x| dict.iter().position(|&d| d == x).unwrap() as u32))
        .collect();
    let values = stream(vec![HybridRleChunk::Bitpacked(indices)]);
    let validity = bm(&validity_bits);
    let mut target: Vec<u32> = Vec::new();
    decode_optional_dict(values, &dict, &validity, &mut target).unwrap();
    assert_eq!(target.len(), row_values.len());
    for (j, v) in row_values.iter().enumerate() {
        match v {
            Some(x) => assert_eq!(target[j], *x),
            None => assert_eq!(target[j], 0),
        }
    }
}

#[test]
fn filter_composition_mask_required() {
    // Decoding with Mask(M) equals decoding with no filter then indexing by M.
    let dict: Vec<u32> = vec![4, 5, 6];
    let chunks = || {
        vec![
            HybridRleChunk::Rle(2, 3),
            HybridRleChunk::Bitpacked(vec![0, 1, 2, 0]),
        ]
    };
    let mask_bits = [true, false, false, true, true, false, true];

    let mut masked: Vec<u32> = Vec::new();
    decode_masked_required_dict(stream(chunks()), &dict, &bm(&mask_bits), &mut masked).unwrap();

    let mut unfiltered: Vec<u32> = Vec::new();
    decode_required_dict(stream(chunks()), &dict, &mut unfiltered).unwrap();
    let expected: Vec<u32> = unfiltered
        .iter()
        .zip(mask_bits.iter())
        .filter_map(|(v, keep)| if *keep { Some(*v) } else { None })
        .collect();

    assert_eq!(masked, expected);
}

#[test]
fn filter_composition_mask_optional() {
    // Decoding with Mask(M) equals decoding with no filter then indexing by M.
    let dict: Vec<u32> = vec![4, 5, 6];
    let chunks = || vec![HybridRleChunk::Bitpacked(vec![2, 0, 1, 2])];
    let validity_bits = [true, false, true, true, false, true];
    let mask_bits = [false, true, true, false, true, true];

    let mut masked: Vec<u32> = Vec::new();
    decode_masked_optional_dict(
        stream(chunks()),
        &dict,
        &bm(&mask_bits),
        &bm(&validity_bits),
        &mut masked,
    )
    .unwrap();

    let mut unfiltered: Vec<u32> = Vec::new();
    decode_optional_dict(stream(chunks()), &dict, &bm(&validity_bits), &mut unfiltered).unwrap();
    let expected: Vec<u32> = unfiltered
        .iter()
        .zip(mask_bits.iter())
        .filter_map(|(v, keep)| if *keep { Some(*v) } else { None })
        .collect();

    assert_eq!(masked, expected);
}

#[test]
fn filter_composition_range_is_slicing() {
    // Decoding with Range(s, e) equals decoding with no filter then slicing.
    let dict: Vec<u32> = vec![8, 9];
    let chunks = || {
        vec![
            HybridRleChunk::Bitpacked(vec![0, 1, 1]),
            HybridRleChunk::Rle(0, 3),
        ]
    };
    let page_validity_bits = [true, true, false, true, true, false, true, false];

    for (s, e) in [(0usize, 5usize), (2, 7), (3, 3), (0, 8)] {
        let mut validity = Bitmap::new();
        let mut ranged: Vec<u32> = Vec::new();
        decode_dict(
            stream(chunks()),
            &dict,
            true,
            Some(&bm(&page_validity_bits)),
            Some(Filter::Range { start: s, end: e }),
            &mut validity,
            &mut ranged,
        )
        .unwrap();

        let mut unfiltered: Vec<u32> = Vec::new();
        decode_optional_dict(
            stream(chunks()),
            &dict,
            &bm(&page_validity_bits),
            &mut unfiltered,
        )
        .unwrap();

        assert_eq!(ranged.as_slice(), &unfiltered[s..e]);
    }
}

#[test]
fn filter_composition_exhaustive_over_short_masks() {
    // Every mask and every validity bitmap of five rows: the masked optional
    // decode equals the unfiltered optional decode indexed by the mask.
    let dict: Vec<u32> = vec![40, 41, 42];
    let indices = [2u32, 0, 1, 2, 0];
    for mask_word in 0u32..32 {
        for validity_word in 0u32..32 {
            let mask_bits: Vec<bool> = (0..5).map(|i| mask_word & (1 << i) != 0).collect();
            let validity_bits: Vec<bool> = (0..5).map(|i| validity_word & (1 << i) != 0).collect();
            let used = validity_bits.iter().filter(|b| **b).count();
            let chunk = HybridRleChunk::Bitpacked(indices[..used].to_vec());

            let mut masked: Vec<u32> = Vec::new();
            decode_masked_optional_dict(
                stream(vec![HybridRleChunk::Bitpacked(indices[..used].to_vec())]),
                &dict,
                &Bitmap::from_bools(mask_bits.clone()),
                &Bitmap::from_bools(validity_bits.clone()),
                &mut masked,
            )
            .unwrap();

            let mut unfiltered: Vec<u32> = Vec::new();
            decode_optional_dict(
                stream(vec![chunk]),
                &dict,
                &Bitmap::from_bools(validity_bits),
                &mut unfiltered,
            )
            .unwrap();

            let expected: Vec<u32> = unfiltered
                .iter()
                .zip(mask_bits.iter())
                .filter_map(|(v, keep)| if *keep { Some(*v) } else { None })
                .collect();
            assert_eq!(masked, expected);
        }
    }
}

#[test]
fn fast_path_equivalence_all_ones_validity() {
    // For all-ones validity the optional kernels match the required kernels.
    let dict: Vec<u32> = vec![5, 6, 7];
    let chunks = || {
        vec![
            HybridRleChunk::Rle(1, 2),
            HybridRleChunk::Bitpacked(vec![2, 0]),
        ]
    };
    let ones = [true, true, true, true];

    let mut optional: Vec<u32> = Vec::new();
    decode_optional_dict(stream(chunks()), &dict, &bm(&ones), &mut optional).unwrap();
    let mut required: Vec<u32> = Vec::new();
    decode_required_dict(stream(chunks()), &dict, &mut required).unwrap();
    assert_eq!(optional, required);

    let mask = [true, false, true, false];
    let mut masked_optional: Vec<u32> = Vec::new();
    decode_masked_optional_dict(
        stream(chunks()),
        &dict,
        &bm(&mask),
        &bm(&ones),
        &mut masked_optional,
    )
    .unwrap();
    let mut masked_required: Vec<u32> = Vec::new();
    decode_masked_required_dict(stream(chunks()), &dict, &bm(&mask), &mut masked_required)
        .unwrap();
    assert_eq!(masked_optional, masked_required);
}

#[test]
fn fast_path_equivalence_all_ones_filter() {
    // For an all-ones filter the masked kernels match the unmasked kernels.
    let dict: Vec<u32> = vec![5, 6, 7];
    let chunks = || vec![HybridRleChunk::Bitpacked(vec![0, 2, 1, 2])];
    let ones = [true, true, true, true];

    let mut masked: Vec<u32> = Vec::new();
    decode_masked_required_dict(stream(chunks()), &dict, &bm(&ones), &mut masked).unwrap();
    let mut required: Vec<u32> = Vec::new();
    decode_required_dict(stream(chunks()), &dict, &mut required).unwrap();
    assert_eq!(masked, required);

    let validity = [true, false, true, false];
    let mut masked_optional: Vec<u32> = Vec::new();
    decode_masked_optional_dict(
        stream(chunks()),
        &dict,
        &bm(&ones),
        &bm(&validity),
        &mut masked_optional,
    )
    .unwrap();
    let mut optional: Vec<u32> = Vec::new();
    decode_optional_dict(stream(chunks()), &dict, &bm(&validity), &mut optional).unwrap();
    assert_eq!(masked_optional, optional);
}

#[test]
fn index_validation_rejects_every_oob_position() {
    // An out-of-bounds index anywhere in the consumed stream fails the call.
    let dict: Vec<u32> = vec![1, 2, 3];
    for bad_pos in 0..4 {
        let mut indices = vec![0u32, 1, 2, 0];
        indices[bad_pos] = 3;
        let values = stream(vec![HybridRleChunk::Bitpacked(indices)]);
        let mut target: Vec<u32> = Vec::new();
        let r = decode_required_dict(values, &dict, &mut target);
        assert_eq!(r, Err(ParquetError::OutOfBoundsDictIndex));
        assert!(target.is_empty());
    }
}

#[test]
fn null_padding_fills_every_null_slot_with_zeroed() {
    let dict: Vec<u64> = vec![u64::MAX, 17];
    let values = stream(vec![HybridRleChunk::Rle(0, 2)]);
    let validity_bits = [false, true, false, true, false, false];
    let mut target: Vec<u64> = Vec::new();
    decode_optional_dict(values, &dict, &bm(&validity_bits), &mut target).unwrap();
    assert_eq!(target.len(), validity_bits.len());
    for (j, valid) in validity_bits.iter().enumerate() {
        if *valid {
            assert_eq!(target[j], u64::MAX);
        } else {
            assert_eq!(target[j], 0);
        }
    }
}

#[test]
fn empty_dict_guard_required() {
    let dict: Vec<u32> = Vec::new();
    let values = stream(vec![HybridRleChunk::Rle(0, 1)]);
    let mut target: Vec<u32> = Vec::new();
    assert_eq!(
        decode_required_dict(values, &dict, &mut target),
        Err(ParquetError::OutOfBoundsDictIndex)
    );
}

#[test]
fn empty_dict_guard_masked_optional() {
    let dict: Vec<u32> = Vec::new();
    let values = stream(vec![HybridRleChunk::Rle(0, 1)]);
    let validity = bm(&[true, false]);
    let filter = bm(&[false, true]);
    let mut target: Vec<u32> = Vec::new();
    assert_eq!(
        decode_masked_optional_dict(values, &dict, &filter, &validity, &mut target),
        Err(ParquetError::OutOfBoundsDictIndex)
    );
}

#[test]
fn verify_dict_indices_accepts_in_bounds_batch() {
    let indices = [6u32; 32];
    assert!(verify_dict_indices(&indices, 7).is_ok());
}

#[test]
fn verify_dict_indices_rejects_one_oob_entry() {
    let mut indices = [0u32; 32];
    indices[31] = 5;
    assert_eq!(
        verify_dict_indices(&indices, 5),
        Err(ParquetError::OutOfBoundsDictIndex)
    );
    assert!(verify_dict_indices(&indices, 6).is_ok());
}

#[test]
fn oob_dict_idx_is_the_out_of_bounds_error() {
    assert_eq!(oob_dict_idx(), ParquetError::OutOfBoundsDictIndex);
}

#[test]
fn bitmap_set_bits_and_slicing() {
    let b = bm(&[true, false, true, true, false]);
    assert_eq!(b.len(), 5);
    assert_eq!(b.set_bits(), 3);
    let s = b.sliced(1, 3);
    assert_eq!(s.len(), 3);
    assert_eq!(s.set_bits(), 2);
    assert!(!s.get(0));
    assert!(s.get(1));
    assert!(s.get(2));
}

#[test]
fn filter_bitmap_keeps_bits_at_set_mask_positions() {
    let values = bm(&[true, false, true, false]);
    let mask = bm(&[true, true, false, true]);
    let gated = filter_bitmap(&values, &mask);
    assert_eq!(gated.len(), 3);
    assert!(gated.get(0));
    assert!(!gated.get(1));
    assert!(!gated.get(2));
}

#[test]
fn filter_from_range_marks_exactly_the_range() {
    let mask = filter_from_range(2, 5);
    assert_eq!(mask.len(), 5);
    for i in 0..5 {
        assert_eq!(mask.get(i), 2 <= i);
    }
}

#[test]
fn filter_counts() {
    let range = Filter::Range { start: 3, end: 9 };
    assert_eq!(range.num_rows(), 6);
    assert_eq!(range.max_offset(), 9);
    let mask = Filter::Mask(bm(&[true, false, true]));
    assert_eq!(mask.num_rows(), 2);
    assert_eq!(mask.max_offset(), 3);
}

#[test]
fn decoder_len_counts_all_chunks() {
    let d = stream(vec![
        HybridRleChunk::Rle(0, 4),
        HybridRleChunk::Bitpacked(vec![1, 2, 3]),
    ]);
    assert_eq!(d.len(), 7);
}

#[test]
fn decoder_limit_to_clamps_output() {
    let mut d = stream(vec![HybridRleChunk::Rle(1, 5)]);
    d.limit_to(3);
    assert_eq!(d.len(), 3);
    let dict: Vec<u32> = vec![10, 20];
    let mut target: Vec<u32> = Vec::new();
    decode_required_dict(d, &dict, &mut target).unwrap();
    assert_eq!(target, vec![20, 20, 20]);
}

#[test]
fn long_bitpacked_runs_validate_in_batches() {
    let dict: Vec<u32> = vec![1, 2];
    // 70 indices: two full batches of 32 and a tail of 6.
    let good: Vec<u32> = (0..70u32).map(|i| i % 2).collect();
    let mut target: Vec<u32> = Vec::new();
    decode_required_dict(
        stream(vec![HybridRleChunk::Bitpacked(good.clone())]),
        &dict,
        &mut target,
    )
    .unwrap();
    assert_eq!(target.len(), 70);
    for (j, idx) in good.iter().enumerate() {
        assert_eq!(target[j], dict[*idx as usize]);
    }

    // An out-of-bounds index inside the second full batch fails.
    let mut bad = good.clone();
    bad[40] = 2;
    let mut target: Vec<u32> = Vec::new();
    let r = decode_required_dict(stream(vec![HybridRleChunk::Bitpacked(bad)]), &dict, &mut target);
    assert_eq!(r, Err(ParquetError::OutOfBoundsDictIndex));
    assert!(target.is_empty());

    // An out-of-bounds index in the partial tail fails too.
    let mut bad = good;
    bad[69] = 9;
    let mut target: Vec<u32> = Vec::new();
    let r = decode_required_dict(stream(vec![HybridRleChunk::Bitpacked(bad)]), &dict, &mut target);
    assert_eq!(r, Err(ParquetError::OutOfBoundsDictIndex));
    assert!(target.is_empty());
}

#[test]
fn decoder_new_rejects_overflowing_length() {
    let r = HybridRleDecoder::new(vec![
        HybridRleChunk::Rle(0, usize::MAX),
        HybridRleChunk::Rle(0, 1),
    ]);
    assert!(r.is_none());
}

#[test]
fn dispatch_mask_without_validity() {
    let dict: Vec<u32> = vec![6, 7];
    let values = stream(vec![HybridRleChunk::Bitpacked(vec![1, 0, 0, 1])]);
    let mask = bm(&[false, true, true, false]);
    let mut validity = Bitmap::new();
    let mut target: Vec<u32> = Vec::new();
    decode_dict_dispatch(
        values,
        &dict,
        false,
        None,
        Some(Filter::Mask(mask)),
        &mut validity,
        &mut target,
    )
    .unwrap();
    assert_eq!(target, vec![6, 6]);
    assert_eq!(validity.len(), 0);
}

#[test]
fn dispatch_required_no_filter_leaves_validity_alone() {
    let dict: Vec<u32> = vec![3];
    let values = stream(vec![HybridRleChunk::Rle(0, 2)]);
    let mut validity = Bitmap::new();
    let mut target: Vec<u32> = Vec::new();
    decode_dict_dispatch(values, &dict, false, None, None, &mut validity, &mut target).unwrap();
    assert_eq!(target, vec![3, 3]);
    assert_eq!(validity.len(), 0);
}

#[test]
fn dispatch_optional_no_validity_appends_all_ones() {
    let dict: Vec<u32> = vec![3, 4];
    let values = stream(vec![HybridRleChunk::Bitpacked(vec![1, 0])]);
    let mut validity = Bitmap::new();
    let mut target: Vec<u32> = Vec::new();
    decode_dict(values, &dict, true, None, None, &mut validity, &mut target).unwrap();
    assert_eq!(target, vec![4, 3]);
    assert_eq!(validity.len(), 2);
    assert!(validity.get(0));
    assert!(validity.get(1));
}

#[test]
fn other_value_widths_decode_and_pad() {
    // Narrow and wide fixed-width values run through the same kernels.
    let dict8: Vec<u8> = vec![250, 251];
    let values = stream(vec![HybridRleChunk::Bitpacked(vec![1, 0])]);
    let validity = bm(&[true, false, true]);
    let mut target8: Vec<u8> = Vec::new();
    decode_optional_dict(values, &dict8, &validity, &mut target8).unwrap();
    assert_eq!(target8, vec![251, 0, 250]);

    let dict128: Vec<u128> = vec![u128::MAX - 1, u128::MAX];
    let values = stream(vec![HybridRleChunk::Rle(1, 2)]);
    let mut target128: Vec<u128> = Vec::new();
    decode_required_dict(values, &dict128, &mut target128).unwrap();
    assert_eq!(target128, vec![u128::MAX, u128::MAX]);

    let dict64: Vec<i64> = vec![-5, 9];
    let values = stream(vec![HybridRleChunk::Bitpacked(vec![0, 1, 0])]);
    let filter = bm(&[true, false, true]);
    let mut target64: Vec<i64> = Vec::new();
    decode_masked_required_dict(values, &dict64, &filter, &mut target64).unwrap();
    assert_eq!(target64, vec![-5, -5]);
}

#[test]
fn error_leaves_target_and_appends_validity_only() {
    // The validity append happens before the kernels run, as the dispatch
    // contract states; the target is untouched on error.
    let dict: Vec<u32> = vec![1];
    let values = stream(vec![HybridRleChunk::Bitpacked(vec![0, 9])]);
    let mut validity = Bitmap::new();
    let mut target: Vec<u32> = Vec::new();
    let r = decode_dict(values, &dict, true, None, None, &mut validity, &mut target);
    assert_eq!(r, Err(ParquetError::OutOfBoundsDictIndex));
    assert!(target.is_empty());
    assert_eq!(validity.len(), 2);
}
