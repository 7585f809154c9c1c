use qwen_forced_aligner::attention::{
    filling, head_rows, kv_head, leading_rows, merge_heads, qkv_bounds, visible, CachePlace,
    KvCache,
};
use qwen_forced_aligner::conv::{
    channels_to_images, chunk_tokens, conv_batches, conv_output_len, conv_stem_output_len, im2col,
    pack_chunks, pack_valid_rows, stem_rows, sum_counts,
};
use qwen_forced_aligner::prompt::feature_extract_output_len;
use qwen_forced_aligner::rope::{
    build_contiguous_dim_map, build_interleaved_dim_map, double_columns, rotary_positions,
};
use qwen_forced_aligner::tensor::{
    count_elements, embed_lookup, filled_vec, gather_rows, gemv_chunk, linear_shape, positions_of,
    splice_rows, swap_dims_12, CpuTensor, CpuWeight,
};

#[test]
fn shapes_count_elements() {
    assert_eq!(count_elements(&[]), Some(1));
    assert_eq!(count_elements(&[2, 3, 4]), Some(24));
    assert_eq!(count_elements(&[5, 0]), Some(0));
    assert_eq!(count_elements(&[usize::MAX, 2]), None);
    let t = CpuTensor::new(vec![1, 2, 3, 4, 5, 6], vec![2, 3]);
    assert_eq!(t.numel(), 6);
    let t = t.reshape(vec![3, 2]);
    assert_eq!(t.shape(), &[3, 2]);
    assert_eq!(t.data, vec![1, 2, 3, 4, 5, 6]);
    let zeros = CpuTensor::filled(0u8, vec![2, 2], 4);
    assert_eq!(zeros.data, vec![0; 4]);
    assert_eq!(filled_vec('x', 3), vec!['x'; 3]);
}

#[test]
fn products_have_a_new_last_dimension() {
    assert_eq!(linear_shape(&[1, 5, 7], 3), (5, vec![1, 5, 3]));
    assert_eq!(linear_shape(&[4], 9), (1, vec![9]));
}

#[test]
fn middle_dimensions_swap() {
    let x = CpuTensor::new((0..24).collect(), vec![1, 2, 3, 4]);
    let y = swap_dims_12(&x);
    assert_eq!(y.shape, vec![1, 3, 2, 4]);
    assert_eq!(
        y.data,
        vec![
            0, 1, 2, 3, 12, 13, 14, 15, 4, 5, 6, 7, 16, 17, 18, 19, 8, 9, 10, 11, 20, 21, 22, 23
        ]
    );
    let z = swap_dims_12(&y);
    assert_eq!((z.data, z.shape), (x.data, x.shape));
}

#[test]
fn rows_of_a_table() {
    let table = CpuWeight { data: vec![10, 11, 20, 21, 30, 31], rows: 3, cols: 2 };
    let found = embed_lookup(&table, &[2, 0, 2]);
    assert_eq!(found.data, vec![30, 31, 10, 11, 30, 31]);
    assert_eq!(found.shape, vec![3, 2]);
    assert_eq!(gather_rows(&table.data, 2, 3, &[1]), vec![20, 21]);
    assert_eq!(positions_of(&[5, 7, 5], 5), vec![0, 2]);
    assert_eq!(
        splice_rows(&[1, 1, 2, 2, 3, 3], 2, &[9, 8, 9], 9, &[70, 71, 80, 81, 90]),
        vec![70, 71, 2, 2, 80, 81]
    );
}

#[test]
fn convolutions_halve_lengths() {
    assert_eq!(conv_output_len(1), 1);
    assert_eq!(conv_output_len(100), 50);
    assert_eq!(conv_output_len(101), 51);
    assert_eq!(conv_stem_output_len(100), 13);
    assert_eq!(conv_stem_output_len(1), 1);
    assert_eq!(chunk_tokens(250, 100), vec![13, 13, 7]);
    assert_eq!(chunk_tokens(0, 100), Vec::<usize>::new());
    assert_eq!(sum_counts(&[13, 13, 7]), Some(33));
    assert_eq!(sum_counts(&[usize::MAX, 1]), None);
}

#[test]
fn token_counts_agree_with_the_places_of_the_input() {
    for frames in 0..2000usize {
        let tokens = sum_counts(&chunk_tokens(frames, 100)).unwrap();
        assert_eq!(tokens as i64, feature_extract_output_len(frames as i64));
        assert!(tokens <= frames);
    }
}

#[test]
fn chunks_of_features() {
    // Two bins of three frames, in chunks of two.
    let packed = pack_chunks(&[1, 2, 3, 4, 5, 6], 2, 3, 2, 2, 0);
    assert_eq!(packed, vec![1, 2, 4, 5, 3, 0, 6, 0]);
    assert_eq!(conv_batches(130), vec![(0, 64), (64, 128), (128, 130)]);
    assert_eq!(conv_batches(64), vec![(0, 64)]);
    assert!(conv_batches(0).is_empty());
}

#[test]
fn receptive_fields_with_a_border_of_zeros() {
    // One image of one channel: 1 2 3 / 4 5 6 / 7 8 9.
    let cols = im2col(&[1, 2, 3, 4, 5, 6, 7, 8, 9], 1, 1, 3, 3, 0);
    assert_eq!(
        cols,
        vec![
            0, 0, 0, 0, 1, 2, 0, 4, 5, // top left
            0, 0, 0, 2, 3, 0, 5, 6, 0, // top right
            0, 4, 5, 0, 7, 8, 0, 0, 0, // bottom left
            5, 6, 0, 8, 9, 0, 0, 0, 0, // bottom right
        ]
    );
}

#[test]
fn orders_of_images() {
    // Two channels, two images of one by two.
    let by_image = channels_to_images(&[1, 2, 3, 4, 5, 6, 7, 8], 2, 2, 1, 2);
    assert_eq!(by_image, vec![1, 2, 5, 6, 3, 4, 7, 8]);
    // One image of two channels, two rows and three columns: a row for every column.
    let rows = stem_rows(&[0, 1, 2, 3, 4, 5, 6, 7, 8, 9, 10, 11], 1, 2, 2, 3);
    assert_eq!(rows, vec![0, 3, 6, 9, 1, 4, 7, 10, 2, 5, 8, 11]);
    assert_eq!(pack_valid_rows(&[1, 2, 3, 4, 5, 6, 7, 8], 2, 2, &[2, 1]), vec![1, 2, 3, 4, 5, 6]);
}

#[test]
fn sections_one_after_the_other() {
    assert_eq!(build_contiguous_dim_map(&[2, 1, 1], 4), vec![0, 0, 1, 2]);
    assert_eq!(build_contiguous_dim_map(&[2, 1], 5), vec![0, 0, 1, 1, 1]);
    assert_eq!(build_contiguous_dim_map(&[5], 2), vec![0, 0]);
    assert_eq!(build_contiguous_dim_map(&[], 0), Vec::<usize>::new());
}

#[test]
fn sections_in_turn() {
    assert_eq!(build_interleaved_dim_map(&[3, 1, 2], 6), vec![0, 1, 2, 0, 2, 0]);
    assert_eq!(build_interleaved_dim_map(&[3, 1, 2], 4), vec![0, 1, 2, 0]);
    assert_eq!(build_interleaved_dim_map(&[1, 1], 5), vec![0, 1]);
    let map = build_interleaved_dim_map(&[24, 20, 20], 64);
    assert_eq!(map.len(), 64);
    assert_eq!(&map[..6], &[0, 1, 2, 0, 1, 2]);
    assert_eq!(&map[60..], &[0, 0, 0, 0]);
}

#[test]
fn rotary_tables() {
    let streams = vec![vec![0i64, 1], vec![10, 11]];
    assert_eq!(rotary_positions(&streams, &[1, 0, 1], 2), vec![10, 0, 10, 11, 1, 11]);
    assert_eq!(double_columns(&[1, 2, 3, 4], 2, 4, 0), vec![1, 2, 1, 2, 3, 4, 3, 4]);
    assert_eq!(double_columns(&[1, 2], 2, 3, 0), vec![1, 1, 0, 2, 2, 0]);
}

#[test]
fn heads_share_keys_and_values() {
    let found: Vec<usize> = (0..6).map(|h| kv_head(h, 6, 3)).collect();
    assert_eq!(found, vec![0, 0, 1, 1, 2, 2]);
    assert_eq!(qkv_bounds(4, 2, 8), (32, 48, 64));
}

#[test]
fn causal_masks_grow() {
    assert_eq!((0..3).map(|i| visible(i, 3, 3, true)).collect::<Vec<usize>>(), vec![1, 2, 3]);
    assert_eq!(visible(0, 1, 9, true), 9);
    assert_eq!(visible(0, 3, 5, true), 3);
    assert_eq!(visible(0, 3, 5, false), 5);
}

#[test]
fn heads_of_a_projection() {
    // One text, two positions, two heads of two components.
    let x = [1, 2, 3, 4, 5, 6, 7, 8];
    assert_eq!(head_rows(&x, 1, 2, 2, 2, 0, 0), vec![1, 2, 5, 6]);
    let heads = vec![head_rows(&x, 1, 2, 2, 2, 0, 0), head_rows(&x, 1, 2, 2, 2, 0, 1)];
    assert_eq!(merge_heads(&heads, 1, 2, 2, 2), x.to_vec());
}

#[test]
fn caches_give_back_what_was_written() {
    let mut cache = KvCache::new(2, 1, 2, 3, 2, 0);
    assert_eq!((cache.k.len(), cache.k[0].len(), cache.cur_len), (2, 12, 0));
    let place = CachePlace { layer: 1, item: 0, head: 1, position: 2 };
    cache.write(1, 2, 2, place, &[7, 8], &[9, 10]);
    assert_eq!(cache.k[1], vec![0, 0, 0, 0, 0, 0, 0, 0, 0, 0, 7, 8]);
    assert_eq!(cache.v[1], vec![0, 0, 0, 0, 0, 0, 0, 0, 0, 0, 9, 10]);
    assert_eq!(cache.k[0], vec![0; 12]);
    cache.set_len(3);
    assert_eq!(cache.cur_len, 3);
}

#[test]
fn single_rows_are_aligned() {
    assert_eq!(filling(1, 33), 31);
    assert_eq!(filling(1, 64), 0);
    assert_eq!(filling(2, 33), 0);
    assert_eq!(filling(1, 1), 31);
}

#[test]
fn threads_take_outputs_in_chunks() {
    assert_eq!(gemv_chunk(100, 8), 64);
    assert_eq!(gemv_chunk(5000, 8), 156);
    assert_eq!(gemv_chunk(1_000_000, 8), 2048);
}

#[test]
fn one_position_needs_no_swap() {
    let x = CpuTensor::new((0..12).collect(), vec![2, 3, 1, 2]);
    let y = swap_dims_12(&x);
    assert_eq!(y.shape, vec![2, 1, 3, 2]);
    assert_eq!(y.data, x.data);
}

#[test]
fn queries_read_the_rows_that_they_see() {
    let (batch, heads, max_seq, dim) = (2, 3, 5, 2);
    let cache: Vec<usize> = (0..batch * heads * max_seq * dim).collect();
    let mut later = cache.clone();
    let (item, head, count, total, i) = (1, 2, 3, 4, 1);
    let base = (item * heads + head) * max_seq * dim;
    for x in &mut later[base + (i + total - count + 1) * dim..] {
        *x += 1000;
    }
    for k in 0..=i {
        let n = visible(k, count, total, true);
        let s = leading_rows(item, head, batch, heads, max_seq, dim, n);
        assert_eq!((s.start, s.len), (base, (k + 2) * dim));
        assert_eq!(cache[s.start..s.start + s.len], later[s.start..s.start + s.len]);
    }
    assert_eq!(visible(0, 4, 4, true), 1);
    let none = leading_rows(1, 1, 2, 2, 3, 0, 3);
    assert_eq!((none.start, none.len), (0, 0));
}
