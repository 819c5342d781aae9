//! Chunk planning and the download session state.

use vstd::prelude::*;

use crate::headers::{
    HeaderUtils, ResponseHeaders, opt_str_view, output_path, probed_file_size, resolve_filename,
    resolved_filename,
};
use crate::text::{collapse_slashes, dec_digits, u64_to_decimal};

verus! {

/// One megabyte: files smaller than this are fetched as a single chunk.
pub const BYTES_1MB: u64 = 1048576;

/// Ten megabytes: upper bound on the nominal size of a planned chunk.
pub const BYTES_10MB: u64 = 10485760;

/// A contiguous inclusive byte range of the resource, assigned to one fetch
/// task, together with the number of bytes that task has downloaded so far.
pub struct Chunk {
    pub start_byte: u64,
    pub end_byte: u64,
    pub downloaded: u64,
}

impl Chunk {
    /// Number of bytes the chunk spans (the range is inclusive).
    pub open spec fn spec_len(self) -> int {
        self.end_byte - self.start_byte + 1
    }

    /// A well-formed chunk spans at least one byte and never reports more
    /// bytes downloaded than it spans.
    pub open spec fn wf(self) -> bool {
        &&& self.start_byte <= self.end_byte
        &&& self.downloaded <= self.spec_len()
    }

    pub fn new(start_byte: u64, end_byte: u64) -> (c: Chunk)
        requires
            start_byte <= end_byte,
        ensures
            c.start_byte == start_byte,
            c.end_byte == end_byte,
            c.downloaded == 0,
            c.wf(),
    {
        Chunk { start_byte, end_byte, downloaded: 0 }
    }
}

/// The effective task count: a missing or zero request means the default of 8.
pub open spec fn spec_threads(threads: Option<u8>) -> u64 {
    match threads {
        Some(0) => 8,
        Some(c) => c as u64,
        None => 8,
    }
}

pub fn normalize_threads(threads: Option<u8>) -> (t: u64)
    ensures
        t == spec_threads(threads),
        1 <= t <= 255,
{
    match threads {
        Some(0) => 8,
        Some(c) => c as u64,
        None => 8,
    }
}

/// The nominal chunk size: the whole file when it is tiny, otherwise an even
/// per-task share capped at ten megabytes to bound in-flight memory.
pub open spec fn spec_chunk_size(total_size: u64, threads: u64) -> u64
    recommends
        total_size > 0,
        1 <= threads <= 255,
{
    if total_size < BYTES_1MB {
        total_size
    } else if total_size as int / threads as int > BYTES_10MB {
        BYTES_10MB
    } else {
        (total_size as int / threads as int) as u64
    }
}

/// Every planned chunk is pinned down exactly: chunk `i` starts at `i * cs`
/// and ends just before the next multiple of `cs`, clipped to the total.
pub open spec fn chunks_planned(s: Seq<Chunk>, total: int, cs: int) -> bool {
    &&& s.len() == (total + cs - 1) / cs
    &&& forall|i: int|
        0 <= i < s.len() ==> (#[trigger] s[i]).start_byte == i * cs
            && s[i].end_byte + 1 == (if (i + 1) * cs < total {
                (i + 1) * cs
            } else {
                total
            })
            && s[i].downloaded == 0
}

/// The chunk sequence partitions `[0, total)`: it starts at zero, ends at
/// `total - 1`, every range is non-empty, and each chunk begins right after
/// the previous one ends, so the ranges are sorted, pairwise disjoint and
/// gap-free, and their union is exactly `[0, total)`.
pub open spec fn chunks_partition(s: Seq<Chunk>, total: int) -> bool {
    &&& s.len() > 0
    &&& s[0].start_byte == 0
    &&& s[s.len() - 1].end_byte == total - 1
    &&& forall|i: int| 0 <= i < s.len() ==> (#[trigger] s[i]).start_byte <= s[i].end_byte
    &&& forall|i: int|
        0 <= i < s.len() - 1 ==> (#[trigger] s[i]).end_byte + 1 == s[i + 1].start_byte
}

proof fn lemma_ceil_div(total: int, cs: int, n: int)
    requires
        cs >= 1,
        total >= 1,
        n * cs >= total,
        (n - 1) * cs < total,
    ensures
        n == (total + cs - 1) / cs,
{
    assert(n * cs == (n - 1) * cs + cs) by (nonlinear_arith);
    vstd::arithmetic::div_mod::lemma_fundamental_div_mod_converse(
        total + cs - 1,
        cs,
        n,
        total + cs - 1 - n * cs,
    );
}

/// Split a resource of `total_size` bytes into the ordered chunk sequence
/// that one fetch task each will download.
pub fn plan_chunks(total_size: u64, threads: u64) -> (chunks: Vec<Chunk>)
    requires
        total_size > 0,
        1 <= threads <= 255,
    ensures
        chunks_planned(
            chunks@,
            total_size as int,
            spec_chunk_size(total_size, threads) as int,
        ),
        chunks_partition(chunks@, total_size as int),
        total_size < BYTES_1MB ==> chunks@.len() == 1,
        total_size as int / threads as int > BYTES_10MB ==> forall|i: int|
            0 <= i < chunks@.len() ==> (#[trigger] chunks@[i]).spec_len() <= BYTES_10MB,
{
    let base: u64 = total_size / threads;
    let chunk_size: u64 = if total_size < BYTES_1MB {
        total_size
    } else if base > BYTES_10MB {
        BYTES_10MB
    } else {
        base
    };
    proof {
        assert(chunk_size == spec_chunk_size(total_size, threads));
        if total_size >= BYTES_1MB {
            vstd::arithmetic::div_mod::lemma_div_non_zero(total_size as int, threads as int);
            vstd::arithmetic::div_mod::lemma_div_nonincreasing(total_size as int, threads as int);
        }
    }
    let ghost cs: int = chunk_size as int;
    let ghost total: int = total_size as int;
    let mut chunks: Vec<Chunk> = Vec::new();
    let mut start: u64 = 0;
    while start < total_size
        invariant
            1 <= chunk_size <= total_size,
            cs == chunk_size as int,
            total == total_size as int,
            start <= total_size,
            start as int == vstd::math::min(chunks@.len() * cs, total),
            forall|i: int|
                0 <= i < chunks@.len() ==> (#[trigger] chunks@[i]).start_byte == i * cs
                    && chunks@[i].start_byte <= chunks@[i].end_byte
                    && chunks@[i].end_byte + 1 == (if (i + 1) * cs < total {
                    (i + 1) * cs
                } else {
                    total
                })
                    && chunks@[i].downloaded == 0,
        decreases total_size - start,
    {
        proof {
            assert(chunks@.len() * cs <= total ==> start as int == chunks@.len() * cs);
            assert(start as int == chunks@.len() * cs) by {
                if chunks@.len() * cs > total {
                    assert(start == total_size);
                }
            }
        }
        let end: u64 = if total_size - start > chunk_size {
            start + chunk_size - 1
        } else {
            total_size - 1
        };
        let ghost n: int = chunks@.len() as int;
        chunks.push(Chunk::new(start, end));
        proof {
            assert((n + 1) * cs == n * cs + cs) by (nonlinear_arith);
            assert(end as int + 1 == vstd::math::min((n + 1) * cs, total));
            assert forall|i: int| 0 <= i < chunks@.len() implies (#[trigger] chunks@[i]).start_byte
                == i * cs && chunks@[i].end_byte + 1 == (if (i + 1) * cs < total {
                (i + 1) * cs
            } else {
                total
            }) && chunks@[i].downloaded == 0 by {
                if i < n {
                    assert(chunks@[i] == chunks@.subrange(0, n)[i]);
                }
            }
        }
        start = end + 1;
    }
    proof {
        let n: int = chunks@.len() as int;
        assert(start == total_size);
        assert(n * cs >= total);
        if n == 0 {
            assert(vstd::math::min(0 * cs, total) == 0);
            assert(false);
        }
        assert((n - 1) * cs == n * cs - cs) by (nonlinear_arith);
        assert((n - 1) * cs < total) by {
            assert(chunks@[n - 1].start_byte == (n - 1) * cs);
            assert(chunks@[n - 1].start_byte <= chunks@[n - 1].end_byte);
            assert(chunks@[n - 1].end_byte + 1 <= total);
        }
        lemma_ceil_div(total, cs, n);
        assert(chunks_planned(chunks@, total, cs));
        assert forall|i: int| 0 <= i < n implies (#[trigger] chunks@[i]).start_byte
            <= chunks@[i].end_byte by {
            assert(i * cs < total) by (nonlinear_arith)
                requires
                    0 <= i < n,
                    n * cs >= total,
                    (n - 1) * cs < total,
                    cs >= 1,
                    total >= 1,
            ;
            assert(i * cs + cs == (i + 1) * cs) by (nonlinear_arith);
            assert(i * cs < (i + 1) * cs);
        }
        assert forall|i: int| 0 <= i < n - 1 implies (#[trigger] chunks@[i]).end_byte + 1
            == chunks@[i + 1].start_byte by {
            assert((i + 1) * cs < total) by (nonlinear_arith)
                requires
                    0 <= i < n - 1,
                    (n - 1) * cs < total,
                    cs >= 1,
            ;
        }
        assert(chunks@[n - 1].end_byte == total - 1);
        assert(chunks_partition(chunks@, total));
        if total_size < BYTES_1MB {
            assert(cs == total);
            assert(n * total >= total && (n - 1) * total < total ==> n == 1) by (nonlinear_arith);
        }
        assert forall|i: int| 0 <= i < n implies (#[trigger] chunks@[i]).spec_len() <= cs by {
            assert(i * cs + cs == (i + 1) * cs) by (nonlinear_arith);
        }
    }
    chunks
}

/// In a partition the chunks are sorted: an earlier chunk ends strictly
/// before a later one starts.
pub proof fn lemma_partition_sorted(chunks: Seq<Chunk>, total: int, i: int, j: int)
    requires
        chunks_partition(chunks, total),
        0 <= i < j < chunks.len(),
    ensures
        chunks[i].end_byte < chunks[j].start_byte,
    decreases j - i,
{
    if j == i + 1 {
    } else {
        lemma_partition_sorted(chunks, total, i, j - 1);
    }
}

/// Every chunk of a partition of `[0, total)` lies inside that range.
pub proof fn lemma_partition_bounds(chunks: Seq<Chunk>, total: int, i: int)
    requires
        chunks_partition(chunks, total),
        0 <= i < chunks.len(),
    ensures
        chunks[i].start_byte <= chunks[i].end_byte <= total - 1,
{
    if i < chunks.len() - 1 {
        lemma_partition_sorted(chunks, total, i, chunks.len() - 1);
    }
}

/// Errors that end a download session.
#[derive(Clone, Copy, Debug, PartialEq, Eq, Structural)]
pub enum DownloadError {
    /// A fetch task delivered fewer bytes than its chunk spans.
    ShortChunk,
}

impl Chunk {
    /// Record how many bytes of this chunk its fetch task has downloaded.
    pub fn record_progress(&mut self, downloaded: u64)
        requires
            old(self).wf(),
            downloaded <= old(self).spec_len(),
        ensures
            final(self).start_byte == old(self).start_byte,
            final(self).end_byte == old(self).end_byte,
            final(self).downloaded == downloaded,
            final(self).wf(),
    {
        self.downloaded = downloaded;
    }
}

/// The in-memory state of one fetch task while it consumes its response
/// body stream: the bytes received so far and their count.
pub struct FetchBuffer {
    pub data: Vec<u8>,
    pub downloaded: u64,
}

impl FetchBuffer {
    /// The byte counter always equals the number of buffered bytes.
    pub open spec fn wf(self) -> bool {
        self.downloaded == self.data@.len()
    }

    pub fn new() -> (b: FetchBuffer)
        ensures
            b.data@ =~= Seq::<u8>::empty(),
            b.downloaded == 0,
            b.wf(),
    {
        FetchBuffer { data: Vec::new(), downloaded: 0 }
    }

    /// Consume one increment of the response body stream.
    pub fn push_segment(&mut self, buf: &[u8])
        requires
            old(self).wf(),
        ensures
            final(self).data@ == old(self).data@ + buf@,
            final(self).downloaded == final(self).data@.len(),
            final(self).wf(),
    {
        self.data.extend_from_slice(buf);
        self.downloaded = self.data.len() as u64;
    }

    /// Check the stream delivered exactly the chunk's span: anything less
    /// is a short-chunk error.
    pub fn check_complete(&self, chunk: &Chunk) -> (r: Result<u64, DownloadError>)
        requires
            self.wf(),
            chunk.start_byte <= chunk.end_byte,
            chunk.spec_len() <= u64::MAX,
        ensures
            r == (if self.downloaded == chunk.spec_len() {
                Result::<u64, DownloadError>::Ok(self.downloaded)
            } else {
                Result::<u64, DownloadError>::Err(DownloadError::ShortChunk)
            }),
    {
        let len: u64 = chunk.end_byte - chunk.start_byte + 1;
        if self.downloaded == len {
            Result::Ok(self.downloaded)
        } else {
            Result::Err(DownloadError::ShortChunk)
        }
    }
}

/// The range request header value `bytes=start-end`.
pub open spec fn spec_range_header(start: u64, end: u64) -> Seq<char> {
    "bytes="@ + dec_digits(start as int) + "-"@ + dec_digits(end as int)
}

/// Render the range request header value for one chunk.
pub fn range_header_value(start: u64, end: u64) -> (r: String)
    ensures
        r@ == spec_range_header(start, end),
{
    let mut s = String::from_str("bytes=");
    let a = u64_to_decimal(start);
    s.append(a.as_str());
    s.append("-");
    let b = u64_to_decimal(end);
    s.append(b.as_str());
    s
}

/// One download session: the resource, what the probe found out about it,
/// and the chunk plan.
pub struct Downloader {
    pub url: String,
    pub file_size: Option<u64>,
    pub filename: Option<String>,
    pub chunks: Vec<Chunk>,
}

impl Downloader {
    pub fn new(url: String) -> (d: Downloader)
        ensures
            d.url == url,
            d.file_size is None,
            d.filename is None,
            d.chunks@.len() == 0,
    {
        Downloader { url, file_size: None, filename: None, chunks: Vec::new() }
    }

    /// Apply the probe response: resolve the output path from the headers
    /// and the URL, record the reported size, and plan the chunks. A
    /// missing or malformed size leaves the size unknown and plans no
    /// chunks, routing the session to the single-stream path; a zero size
    /// needs no chunks either.
    pub fn apply_probe(&mut self, headers: &ResponseHeaders, dest_dir: &str, threads: Option<u8>)
        ensures
            final(self).url == old(self).url,
            final(self).filename matches Some(p) && p@ == collapse_slashes(
                dest_dir@ + "/"@ + resolved_filename(
                    opt_str_view(headers.content_disposition),
                    old(self).url@,
                ),
            ),
            final(self).file_size == probed_file_size(opt_str_view(headers.content_range)),
            match final(self).file_size {
                Option::Some(ts) => {
                    &&& ts > 0 ==> chunks_planned(
                        final(self).chunks@,
                        ts as int,
                        spec_chunk_size(ts, spec_threads(threads)) as int,
                    ) && chunks_partition(final(self).chunks@, ts as int)
                    &&& ts == 0 ==> final(self).chunks@.len() == 0
                },
                Option::None => final(self).chunks@.len() == 0,
            },
    {
        let name = resolve_filename(headers, self.url.as_str());
        let path = output_path(dest_dir, name.as_str());
        self.filename = Some(path);
        match headers.extract_file_size() {
            Result::Ok(ts) => {
                self.file_size = Some(ts);
                if ts > 0 {
                    self.chunks = plan_chunks(ts, normalize_threads(threads));
                } else {
                    self.chunks = Vec::new();
                }
            },
            Result::Err(_) => {
                self.file_size = None;
                self.chunks = Vec::new();
            },
        }
    }

    /// Aggregate the per-chunk byte counts the fetch tasks report: the
    /// session succeeds only when every chunk was written in full.
    pub fn aggregate_results(&self, written: &Vec<u64>, total_size: u64) -> (r: Result<
        u64,
        DownloadError,
    >)
        requires
            chunks_partition(self.chunks@, total_size as int),
            written@.len() == self.chunks@.len(),
        ensures
            r == (if forall|i: int|
                0 <= i < self.chunks@.len() ==> written@[i] == (#[trigger] self.chunks@[i]).spec_len() {
                Result::<u64, DownloadError>::Ok(total_size)
            } else {
                Result::<u64, DownloadError>::Err(DownloadError::ShortChunk)
            }),
    {
        let n: usize = self.chunks.len();
        let mut i: usize = 0;
        while i < n
            invariant
                n == self.chunks@.len(),
                written@.len() == self.chunks@.len(),
                chunks_partition(self.chunks@, total_size as int),
                i <= n,
                forall|k: int|
                    0 <= k < i ==> written@[k] == (#[trigger] self.chunks@[k]).spec_len(),
            decreases n - i,
        {
            proof {
                lemma_partition_bounds(self.chunks@, total_size as int, i as int);
            }
            let c = &self.chunks[i];
            let len: u64 = c.end_byte - c.start_byte + 1;
            if written[i] != len {
                return Result::Err(DownloadError::ShortChunk);
            }
            i += 1;
        }
        Result::Ok(total_size)
    }
}

} // verus!
