use arcfs::chunker::{build_gear_matrix, chunk_lengths, splitmix64, Chunker};

fn lcg_data(n: u32) -> Vec<u8> {
    (0u32..n)
        .map(|i| {
            let x = i.wrapping_mul(1103515245).wrapping_add(12345);
            ((x / 65536) % 256) as u8
        })
        .collect()
}

#[test]
fn test_chunking_consistency() {
    let mut chunker = Chunker::new();

    // Create more random-looking synthetic data
    // Using a simple LCG (Linear Congruential Generator) pattern
    let data: Vec<u8> = lcg_data(100_000);

    let mut cut_points = Vec::new();
    let mut current_chunk_size = 0usize;

    for (i, &byte) in data.iter().enumerate() {
        chunker.feed_byte(byte);
        current_chunk_size += 1;

        if chunker.should_cut(current_chunk_size) {
            cut_points.push(i);
            chunker.reset();
            current_chunk_size = 0;
        }
    }

    println!(
        "Found {} chunks at positions: {:?}",
        cut_points.len(),
        &cut_points[..cut_points.len().min(10)]
    );
    println!(
        "Average chunk size: ~{} bytes",
        if cut_points.len() > 0 {
            100_000 / cut_points.len()
        } else {
            0
        }
    );

    assert!(
        cut_points.len() > 5,
        "Statistically unlikely to have fewer than 5 chunks in 100KB data"
    );
}

#[test]
fn splitmix64_known_values() {
    assert_eq!(splitmix64(0), 0xe220a8397b1dcdaf);
    assert_eq!(splitmix64(1), 10451216379200822465);
}

#[test]
fn gear_matrix_known_entries() {
    let g = build_gear_matrix();
    assert_eq!(g.len(), 256);
    assert_eq!(g[0], 1592342178222199016);
    assert_eq!(g[255], 7372676400927424847);
}

#[test]
fn no_cut_below_minimum_and_always_at_maximum() {
    let mut c = Chunker::new();
    c.feed_byte(7);
    assert!(!c.should_cut(0));
    assert!(!c.should_cut(2047));
    assert!(c.should_cut(65536));
    assert!(c.should_cut(70000));
}

#[test]
fn cut_when_low_bits_are_zero() {
    // A fresh chunker has hash 0, so every size from the minimum on cuts.
    let c = Chunker::new();
    assert!(c.should_cut(2048));
    assert!(!c.should_cut(2047));
}

#[test]
fn reset_forgets_the_rolling_hash() {
    let mut a = Chunker::new();
    for b in 0u8..200 {
        a.feed_byte(b);
    }
    a.reset();
    let fresh = Chunker::new();
    for size in [2048usize, 3000, 4096, 60000] {
        assert_eq!(a.should_cut(size), fresh.should_cut(size));
    }
}

#[test]
fn chunk_lengths_partition_the_data() {
    let data = lcg_data(300_000);
    let sizes = chunk_lengths(&data);
    assert_eq!(sizes.iter().sum::<usize>(), data.len());
    for (i, s) in sizes.iter().enumerate() {
        assert!(*s > 0 && *s <= 65536);
        if i + 1 < sizes.len() {
            assert!(*s >= 2048);
        }
    }
}

#[test]
fn chunk_lengths_of_nothing_and_of_small_input() {
    assert!(chunk_lengths(&[]).is_empty());
    assert_eq!(chunk_lengths(&[1, 2, 3]), vec![3]);
    // All-zero data: the minimum size cuts only where the hash's low bits vanish,
    // and no chunk exceeds the maximum.
    let zeros = vec![0u8; 200_000];
    let sizes = chunk_lengths(&zeros);
    assert_eq!(sizes.iter().sum::<usize>(), 200_000);
    assert!(sizes.iter().all(|s| *s <= 65536));
}

#[test]
fn chunk_lengths_match_the_streaming_chunker() {
    let data = lcg_data(50_000);
    let mut c = Chunker::new();
    let mut sizes = Vec::new();
    let mut cur = 0usize;
    for &b in &data {
        c.feed_byte(b);
        cur += 1;
        if c.should_cut(cur) {
            sizes.push(cur);
            c.reset();
            cur = 0;
        }
    }
    if cur > 0 {
        sizes.push(cur);
    }
    assert_eq!(chunk_lengths(&data), sizes);
}

#[test]
fn edits_before_a_boundary_leave_later_chunks_alone() {
    let data = lcg_data(100_000);
    let lengths = chunk_lengths(&data);
    assert!(lengths.len() > 3);
    // The first two chunks end on a boundary.
    let head_len = lengths[0] + lengths[1];
    let tail: Vec<u8> = (0u32..30_000).map(|i| (i.wrapping_mul(2654435761) >> 13) as u8).collect();

    let mut original = data[..head_len].to_vec();
    original.extend_from_slice(&tail);
    let tail_lengths = chunk_lengths(&tail);
    let mut expected = vec![lengths[0], lengths[1]];
    expected.extend_from_slice(&tail_lengths);
    assert_eq!(chunk_lengths(&original), expected);

    // Cutting the second chunk out is an edit before the boundary: the
    // head still ends on one, and the tail's chunks come back unchanged.
    let mut edited = data[..lengths[0]].to_vec();
    edited.extend_from_slice(&tail);
    let mut expected_edited = vec![lengths[0]];
    expected_edited.extend_from_slice(&tail_lengths);
    assert_eq!(chunk_lengths(&edited), expected_edited);
}

#[test]
fn cut_decision_depends_on_last_twelve_bytes() {
    let mut a = Chunker::new();
    let mut b = Chunker::new();
    for byte in lcg_data(500) {
        a.feed_byte(byte);
    }
    for byte in 0u8..=200 {
        b.feed_byte(byte.wrapping_mul(7));
    }
    let window: [u8; 12] = [9, 200, 31, 4, 77, 128, 0, 255, 13, 64, 99, 250];
    for byte in window {
        a.feed_byte(byte);
        b.feed_byte(byte);
    }
    for n in [100usize, 2048, 3000, 4096, 65535, 65536] {
        assert_eq!(a.should_cut(n), b.should_cut(n));
    }
}

#[test]
fn splitting_at_a_chunk_boundary_keeps_the_chunks() {
    let data = lcg_data(100_000);
    let lengths = chunk_lengths(&data);
    for k in 0..=lengths.len() {
        let p: usize = lengths[..k].iter().sum();
        assert_eq!(chunk_lengths(&data[..p]), lengths[..k].to_vec());
        assert_eq!(chunk_lengths(&data[p..]), lengths[k..].to_vec());
    }
}

#[test]
fn splitmix64_gives_different_values_for_different_inputs() {
    let mut seen: Vec<u64> = (0u64..1000).map(splitmix64).collect();
    seen.sort();
    seen.dedup();
    assert_eq!(seen.len(), 1000);
}
