use furl_core::engine::{normalize_threads, plan_chunks};

const MIB: u64 = 1024 * 1024;

fn assert_partition(chunks: &[furl_core::engine::Chunk], total: u64) {
    assert!(!chunks.is_empty());
    assert_eq!(chunks[0].start_byte, 0);
    assert_eq!(chunks[chunks.len() - 1].end_byte, total - 1);
    for c in chunks {
        assert!(c.start_byte <= c.end_byte);
        assert_eq!(c.downloaded, 0);
    }
    for w in chunks.windows(2) {
        assert_eq!(w[0].end_byte + 1, w[1].start_byte);
    }
}

#[test]
fn scenario_a_25_mib_4_threads() {
    let total = 25 * MIB;
    let chunks = plan_chunks(total, 4);
    assert_eq!(chunks.len(), 4);
    let quarter = total / 4;
    for (i, c) in chunks.iter().enumerate() {
        assert_eq!(c.start_byte, i as u64 * quarter);
        assert_eq!(c.end_byte, (i as u64 + 1) * quarter - 1);
    }
    assert_partition(&chunks, total);
}

#[test]
fn scenario_b_500_kib_8_threads() {
    let total = 500 * 1024;
    let chunks = plan_chunks(total, 8);
    assert_eq!(chunks.len(), 1);
    assert_eq!(chunks[0].start_byte, 0);
    assert_eq!(chunks[0].end_byte, total - 1);
}

#[test]
fn tiny_file_ignores_thread_count() {
    let total = MIB - 1;
    for threads in [1u64, 2, 8, 255] {
        let chunks = plan_chunks(total, threads);
        assert_eq!(chunks.len(), 1);
        assert_partition(&chunks, total);
    }
}

#[test]
fn cap_rule_limits_chunk_size() {
    let total = 100 * MIB;
    let chunks = plan_chunks(total, 4);
    // an even share would be 25 MiB, so the 10 MiB cap applies
    assert_eq!(chunks.len(), 10);
    for c in &chunks {
        assert!(c.end_byte - c.start_byte + 1 <= 10 * MIB);
    }
    assert_partition(&chunks, total);
}

#[test]
fn cap_rule_short_last_chunk() {
    let total = 95 * MIB + 123;
    let chunks = plan_chunks(total, 2);
    assert_partition(&chunks, total);
    for c in chunks.iter().take(chunks.len() - 1) {
        assert_eq!(c.end_byte - c.start_byte + 1, 10 * MIB);
    }
    let last = &chunks[chunks.len() - 1];
    assert!(last.end_byte - last.start_byte + 1 <= 10 * MIB);
}

#[test]
fn coverage_on_uneven_sizes() {
    for total in [MIB, MIB + 1, 3 * MIB + 777, 10_000_000] {
        for threads in [1u64, 3, 7, 255] {
            let chunks = plan_chunks(total, threads);
            assert_partition(&chunks, total);
        }
    }
}

#[test]
fn one_mib_boundary_uses_threads() {
    let chunks = plan_chunks(MIB, 8);
    assert_eq!(chunks.len(), 8);
    assert_partition(&chunks, MIB);
}

#[test]
fn thread_count_normalization() {
    assert_eq!(normalize_threads(None), 8);
    assert_eq!(normalize_threads(Some(0)), 8);
    assert_eq!(normalize_threads(Some(1)), 1);
    assert_eq!(normalize_threads(Some(255)), 255);
}
