use nebchess::tune::{chunk_bounds, NUM_CHUNKS};

#[test]
fn chunks_partition_the_samples_in_order() {
    for len in [0usize, 1, 15, 16, 17, 100, 1001] {
        let b = chunk_bounds(len);
        assert_eq!(b.len(), NUM_CHUNKS);
        assert_eq!(b[0].0, 0);
        assert_eq!(b[NUM_CHUNKS - 1].1, len);
        for c in 1..NUM_CHUNKS {
            assert_eq!(b[c].0, b[c - 1].1, "contiguous");
        }
        let sizes: Vec<usize> = b.iter().map(|(lo, hi)| hi - lo).collect();
        let base = len / NUM_CHUNKS;
        for (c, s) in sizes.iter().enumerate() {
            assert_eq!(*s, base + usize::from(c < len % NUM_CHUNKS));
        }
    }
}
