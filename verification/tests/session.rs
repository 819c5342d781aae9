use furl_core::Downloader;
use furl_core::engine::{Chunk, DownloadError, FetchBuffer, plan_chunks};
use furl_core::headers::ResponseHeaders;
use furl_core::writes::write_at;

fn headers(disposition: Option<&str>, range: Option<&str>) -> ResponseHeaders {
    ResponseHeaders {
        content_disposition: disposition.map(|s| s.to_string()),
        content_range: range.map(|s| s.to_string()),
    }
}

#[test]
fn probe_with_known_size_plans_chunks() {
    let mut d = Downloader::new("https://example.com/big.iso".to_string());
    let h = headers(None, Some("bytes 0-0/26214400"));
    d.apply_probe(&h, "downloads", Some(4));
    assert_eq!(d.file_size, Some(26214400));
    assert_eq!(d.filename.as_deref(), Some("downloads/big.iso"));
    assert_eq!(d.chunks.len(), 4);
    assert_eq!(d.chunks[0].start_byte, 0);
    assert_eq!(d.chunks[3].end_byte, 26214399);
}

#[test]
fn probe_without_size_plans_nothing() {
    let mut d = Downloader::new("https://example.com/stream".to_string());
    let h = headers(None, None);
    d.apply_probe(&h, ".", Some(4));
    assert_eq!(d.file_size, None);
    assert!(d.chunks.is_empty());
    assert_eq!(d.filename.as_deref(), Some("./stream"));
}

#[test]
fn probe_with_malformed_size_plans_nothing() {
    let mut d = Downloader::new("https://example.com/stream".to_string());
    let h = headers(None, Some("bytes 0-0/garbage"));
    d.apply_probe(&h, ".", None);
    assert_eq!(d.file_size, None);
    assert!(d.chunks.is_empty());
}

#[test]
fn probe_with_zero_size_plans_nothing() {
    let mut d = Downloader::new("https://example.com/empty".to_string());
    let h = headers(None, Some("bytes */0"));
    d.apply_probe(&h, ".", None);
    assert_eq!(d.file_size, Some(0));
    assert!(d.chunks.is_empty());
}

#[test]
fn aggregate_full_chunks_succeeds() {
    let mut d = Downloader::new("u".to_string());
    let h = headers(None, Some("bytes 0-0/26214400"));
    d.apply_probe(&h, ".", Some(4));
    let written: Vec<u64> = d
        .chunks
        .iter()
        .map(|c| c.end_byte - c.start_byte + 1)
        .collect();
    assert_eq!(d.aggregate_results(&written, 26214400), Ok(26214400));
}

#[test]
fn aggregate_short_chunk_fails() {
    let mut d = Downloader::new("u".to_string());
    let h = headers(None, Some("bytes 0-0/26214400"));
    d.apply_probe(&h, ".", Some(4));
    let mut written: Vec<u64> = d
        .chunks
        .iter()
        .map(|c| c.end_byte - c.start_byte + 1)
        .collect();
    written[2] -= 1;
    assert_eq!(
        d.aggregate_results(&written, 26214400),
        Err(DownloadError::ShortChunk)
    );
}

#[test]
fn fetch_buffer_counts_received_bytes() {
    let mut b = FetchBuffer::new();
    b.push_segment(&[1, 2, 3]);
    b.push_segment(&[]);
    b.push_segment(&[4, 5]);
    assert_eq!(b.downloaded, 5);
    assert_eq!(b.data, vec![1, 2, 3, 4, 5]);
}

#[test]
fn fetch_buffer_complete_check() {
    let chunk = Chunk::new(10, 14);
    let mut b = FetchBuffer::new();
    b.push_segment(&[9, 9, 9, 9]);
    assert_eq!(b.check_complete(&chunk), Err(DownloadError::ShortChunk));
    b.push_segment(&[9]);
    assert_eq!(b.check_complete(&chunk), Ok(5));
}

#[test]
fn chunk_progress_recording() {
    let mut c = Chunk::new(0, 99);
    assert_eq!(c.downloaded, 0);
    c.record_progress(40);
    assert_eq!(c.downloaded, 40);
    c.record_progress(100);
    assert_eq!(c.downloaded, 100);
}

#[test]
fn reordered_writes_reassemble_identically() {
    let total: u64 = 1000;
    let chunks = plan_chunks(total, 1);
    // one planned chunk covers a tiny resource; build a multi-chunk plan too
    assert_eq!(chunks.len(), 1);
    let chunks = vec![Chunk::new(0, 399), Chunk::new(400, 699), Chunk::new(700, 999)];
    let bodies: Vec<Vec<u8>> = chunks
        .iter()
        .map(|c| {
            (c.start_byte..=c.end_byte)
                .map(|p| (p % 251) as u8)
                .collect()
        })
        .collect();

    let mut in_order = vec![0u8; total as usize];
    for (c, body) in chunks.iter().zip(bodies.iter()) {
        write_at(&mut in_order, c.start_byte as usize, body);
    }

    let mut reversed = vec![0u8; total as usize];
    for (c, body) in chunks.iter().zip(bodies.iter()).rev() {
        write_at(&mut reversed, c.start_byte as usize, body);
    }

    let mut shuffled = vec![0u8; total as usize];
    for i in [1usize, 2, 0] {
        write_at(&mut shuffled, chunks[i].start_byte as usize, &bodies[i]);
    }

    let reference: Vec<u8> = (0..total).map(|p| (p % 251) as u8).collect();
    assert_eq!(in_order, reference);
    assert_eq!(reversed, reference);
    assert_eq!(shuffled, reference);
}

#[test]
fn single_stream_keeps_every_byte() {
    // the unknown-size path: one unranged pass, final length equals the
    // bytes received
    let mut b = FetchBuffer::new();
    let mut expected = Vec::new();
    for seg in [vec![1u8, 2, 3], vec![], vec![4u8; 1000], vec![5]] {
        b.push_segment(&seg);
        expected.extend_from_slice(&seg);
    }
    assert_eq!(b.downloaded as usize, expected.len());
    assert_eq!(b.data, expected);
}
