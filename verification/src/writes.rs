//! A model of the shared output file and of the positional writes the
//! fetch tasks perform, with the proof that the completion order of the
//! tasks cannot change the final file contents.

use vstd::prelude::*;

use crate::engine::{Chunk, chunks_partition, lemma_partition_sorted};

verus! {

/// One positional write: `data` placed at byte offset `offset` of the file.
pub struct FileWrite {
    pub offset: nat,
    pub data: Seq<u8>,
}

impl FileWrite {
    /// First offset past the written range.
    pub open spec fn end(self) -> int {
        self.offset + self.data.len() as int
    }

    /// The write covers byte position `p`.
    pub open spec fn covers(self, p: int) -> bool {
        self.offset <= p < self.end()
    }
}

/// The file after one positional write.
pub open spec fn apply_write(file: Seq<u8>, w: FileWrite) -> Seq<u8> {
    Seq::new(
        file.len(),
        |p: int|
            if w.covers(p) {
                w.data[p - w.offset]
            } else {
                file[p]
            },
    )
}

/// The file after a sequence of positional writes, applied in order.
pub open spec fn apply_writes(file: Seq<u8>, ws: Seq<FileWrite>) -> Seq<u8>
    decreases ws.len(),
{
    if ws.len() == 0 {
        file
    } else {
        apply_writes(apply_write(file, ws[0]), ws.drop_first())
    }
}

/// Two writes touch no common byte.
pub open spec fn writes_disjoint(w1: FileWrite, w2: FileWrite) -> bool {
    w1.end() <= w2.offset || w2.end() <= w1.offset
}

/// No two writes of the sequence touch a common byte.
pub open spec fn pairwise_disjoint(ws: Seq<FileWrite>) -> bool {
    forall|i: int, j: int|
        0 <= i < j < ws.len() ==> writes_disjoint(#[trigger] ws[i], #[trigger] ws[j])
}

/// Every write of the sequence stays within a file of length `len`.
pub open spec fn writes_in_bounds(ws: Seq<FileWrite>, len: int) -> bool {
    forall|i: int| 0 <= i < ws.len() ==> (#[trigger] ws[i]).end() <= len
}

/// Some write of the sequence covers byte position `p`.
pub open spec fn covered(ws: Seq<FileWrite>, p: int) -> bool {
    exists|i: int| 0 <= i < ws.len() && (#[trigger] ws[i]).covers(p)
}

pub proof fn lemma_apply_writes_len(file: Seq<u8>, ws: Seq<FileWrite>)
    ensures
        apply_writes(file, ws).len() == file.len(),
    decreases ws.len(),
{
    if ws.len() > 0 {
        lemma_apply_writes_len(apply_write(file, ws[0]), ws.drop_first());
    }
}

/// A byte no write covers keeps its old value.
pub proof fn lemma_apply_writes_untouched(file: Seq<u8>, ws: Seq<FileWrite>, p: int)
    requires
        0 <= p < file.len(),
        !covered(ws, p),
    ensures
        apply_writes(file, ws)[p] == file[p],
    decreases ws.len(),
{
    if ws.len() > 0 {
        let rest = ws.drop_first();
        assert(!ws[0].covers(p));
        assert(!covered(rest, p)) by {
            if covered(rest, p) {
                let i = choose|i: int| 0 <= i < rest.len() && (#[trigger] rest[i]).covers(p);
                assert(ws[i + 1].covers(p));
            }
        }
        lemma_apply_writes_untouched(apply_write(file, ws[0]), rest, p);
    }
}

/// A byte covered by one write of a pairwise-disjoint sequence holds that
/// write's data, whatever the order of the others.
pub proof fn lemma_apply_writes_value(file: Seq<u8>, ws: Seq<FileWrite>, i: int, p: int)
    requires
        pairwise_disjoint(ws),
        writes_in_bounds(ws, file.len() as int),
        0 <= i < ws.len(),
        ws[i].covers(p),
    ensures
        apply_writes(file, ws)[p] == ws[i].data[p - ws[i].offset],
    decreases ws.len(),
{
    let file1 = apply_write(file, ws[0]);
    let rest = ws.drop_first();
    assert(rest.len() == ws.len() - 1);
    assert(pairwise_disjoint(rest)) by {
        assert forall|a: int, b: int|
            0 <= a < b < rest.len() implies writes_disjoint(
            #[trigger] rest[a],
            #[trigger] rest[b],
        ) by {
            assert(rest[a] == ws[a + 1] && rest[b] == ws[b + 1]);
        }
    }
    assert(writes_in_bounds(rest, file1.len() as int)) by {
        assert forall|a: int| 0 <= a < rest.len() implies (#[trigger] rest[a]).end()
            <= file1.len() by {
            assert(rest[a] == ws[a + 1]);
        }
    }
    if i == 0 {
        assert(file1[p] == ws[0].data[p - ws[0].offset]);
        assert(!covered(rest, p)) by {
            if covered(rest, p) {
                let a = choose|a: int| 0 <= a < rest.len() && (#[trigger] rest[a]).covers(p);
                assert(ws[a + 1].covers(p));
                assert(writes_disjoint(ws[0], ws[a + 1]));
            }
        }
        lemma_apply_writes_untouched(file1, rest, p);
    } else {
        assert(rest[i - 1] == ws[i]);
        lemma_apply_writes_value(file1, rest, i - 1, p);
    }
}

/// Completion order is immaterial: two pairwise-disjoint sequences made of
/// the same writes produce the same file.
pub proof fn lemma_write_order_immaterial(
    file: Seq<u8>,
    ws1: Seq<FileWrite>,
    ws2: Seq<FileWrite>,
)
    requires
        pairwise_disjoint(ws1),
        pairwise_disjoint(ws2),
        writes_in_bounds(ws1, file.len() as int),
        writes_in_bounds(ws2, file.len() as int),
        ws1.to_multiset() == ws2.to_multiset(),
    ensures
        apply_writes(file, ws1) == apply_writes(file, ws2),
{
    broadcast use vstd::seq_lib::group_to_multiset_ensures;

    let r1 = apply_writes(file, ws1);
    let r2 = apply_writes(file, ws2);
    lemma_apply_writes_len(file, ws1);
    lemma_apply_writes_len(file, ws2);
    assert forall|p: int| 0 <= p < file.len() implies r1[p] == r2[p] by {
        if covered(ws1, p) {
            let i = choose|i: int| 0 <= i < ws1.len() && (#[trigger] ws1[i]).covers(p);
            let w = ws1[i];
            assert(ws1.contains(w));
            assert(ws2.to_multiset().count(w) > 0);
            assert(ws2.contains(w));
            let j = choose|j: int| 0 <= j < ws2.len() && ws2[j] == w;
            lemma_apply_writes_value(file, ws1, i, p);
            lemma_apply_writes_value(file, ws2, j, p);
        } else {
            assert(!covered(ws2, p)) by {
                if covered(ws2, p) {
                    let j = choose|j: int|
                        0 <= j < ws2.len() && (#[trigger] ws2[j]).covers(p);
                    let w = ws2[j];
                    assert(ws2.contains(w));
                    assert(ws1.to_multiset().count(w) > 0);
                    assert(ws1.contains(w));
                    let i = choose|i: int| 0 <= i < ws1.len() && ws1[i] == w;
                    assert(ws1[i].covers(p));
                }
            }
            lemma_apply_writes_untouched(file, ws1, p);
            lemma_apply_writes_untouched(file, ws2, p);
        }
    }
    assert(r1 =~= r2);
}

/// The writes a chunked download performs: body `i` at chunk `i`'s start.
pub open spec fn chunk_writes(chunks: Seq<Chunk>, bodies: Seq<Seq<u8>>) -> Seq<FileWrite> {
    Seq::new(
        chunks.len(),
        |i: int| FileWrite { offset: chunks[i].start_byte as nat, data: bodies[i] },
    )
}

/// Each fetched body has exactly the length of its chunk.
pub open spec fn bodies_match(chunks: Seq<Chunk>, bodies: Seq<Seq<u8>>) -> bool {
    &&& bodies.len() == chunks.len()
    &&& forall|i: int|
        0 <= i < chunks.len() ==> (#[trigger] bodies[i]).len() == chunks[i].spec_len()
}

proof fn lemma_partition_covers_from(chunks: Seq<Chunk>, total: int, p: int, j: int)
    requires
        chunks_partition(chunks, total),
        0 <= j < chunks.len(),
        chunks[j].start_byte <= p < total,
    ensures
        exists|i: int|
            j <= i < chunks.len() && (#[trigger] chunks[i]).start_byte <= p <= chunks[i].end_byte,
    decreases chunks.len() - j,
{
    if p <= chunks[j].end_byte {
        assert(chunks[j].start_byte <= p <= chunks[j].end_byte);
    } else {
        assert(j < chunks.len() - 1) by {
            if j == chunks.len() - 1 {
                assert(chunks[j].end_byte == total - 1);
            }
        }
        lemma_partition_covers_from(chunks, total, p, j + 1);
    }
}

/// Every byte of `[0, total)` lies in some chunk of a partition.
pub proof fn lemma_partition_covers(chunks: Seq<Chunk>, total: int, p: int)
    requires
        chunks_partition(chunks, total),
        0 <= p < total,
    ensures
        exists|i: int|
            0 <= i < chunks.len() && (#[trigger] chunks[i]).start_byte <= p <= chunks[i].end_byte,
{
    lemma_partition_covers_from(chunks, total, p, 0);
}

/// Write-safety under reordering: when the chunks partition the pre-sized
/// file and every body has exactly its chunk's length, then writing the
/// bodies at their chunks' offsets in any completion order gives the same
/// file as the reference in-order pass, and every byte of the file is the
/// byte of the one chunk that owns it.
pub proof fn lemma_chunk_write_safety(
    file: Seq<u8>,
    chunks: Seq<Chunk>,
    bodies: Seq<Seq<u8>>,
    ws: Seq<FileWrite>,
)
    requires
        chunks_partition(chunks, file.len() as int),
        bodies_match(chunks, bodies),
        ws.to_multiset() == chunk_writes(chunks, bodies).to_multiset(),
    ensures
        apply_writes(file, ws) == apply_writes(file, chunk_writes(chunks, bodies)),
        forall|i: int, p: int|
            0 <= i < chunks.len() && (#[trigger] chunks[i]).start_byte <= p
                <= chunks[i].end_byte ==> #[trigger] apply_writes(file, ws)[p] == bodies[i][p
                - chunks[i].start_byte],
{
    broadcast use vstd::seq_lib::group_to_multiset_ensures;

    let cws = chunk_writes(chunks, bodies);
    let total = file.len() as int;
    assert forall|i: int, j: int|
        0 <= i < j < cws.len() implies writes_disjoint(#[trigger] cws[i], #[trigger] cws[j]) by {
        lemma_partition_sorted(chunks, total, i, j);
    }
    assert(writes_in_bounds(cws, total)) by {
        assert forall|i: int| 0 <= i < cws.len() implies (#[trigger] cws[i]).end() <= total by {
            if i < chunks.len() - 1 {
                lemma_partition_sorted(chunks, total, i, chunks.len() - 1);
                assert(chunks[chunks.len() - 1].end_byte == total - 1);
            }
        }
    }
    assert(cws.no_duplicates()) by {
        assert forall|i: int, j: int|
            0 <= i < cws.len() && 0 <= j < cws.len() && i != j implies cws[i] != cws[j] by {
            if i < j {
                lemma_partition_sorted(chunks, total, i, j);
            } else {
                lemma_partition_sorted(chunks, total, j, i);
            }
        }
    }
    cws.lemma_multiset_has_no_duplicates();
    ws.lemma_multiset_has_no_duplicates_conv();
    assert(pairwise_disjoint(ws)) by {
        assert forall|a: int, b: int|
            0 <= a < b < ws.len() implies writes_disjoint(
            #[trigger] ws[a],
            #[trigger] ws[b],
        ) by {
            assert(ws.contains(ws[a]));
            assert(cws.to_multiset().count(ws[a]) > 0);
            assert(cws.contains(ws[a]));
            assert(ws.contains(ws[b]));
            assert(cws.to_multiset().count(ws[b]) > 0);
            assert(cws.contains(ws[b]));
            let i = choose|i: int| 0 <= i < cws.len() && cws[i] == ws[a];
            let j = choose|j: int| 0 <= j < cws.len() && cws[j] == ws[b];
            assert(ws[a] != ws[b]);
            assert(i != j);
            if i < j {
                lemma_partition_sorted(chunks, total, i, j);
            } else {
                lemma_partition_sorted(chunks, total, j, i);
            }
        }
    }
    assert(writes_in_bounds(ws, total)) by {
        assert forall|a: int| 0 <= a < ws.len() implies (#[trigger] ws[a]).end() <= total by {
            assert(ws.contains(ws[a]));
            assert(cws.to_multiset().count(ws[a]) > 0);
            assert(cws.contains(ws[a]));
            let i = choose|i: int| 0 <= i < cws.len() && cws[i] == ws[a];
        }
    }
    lemma_write_order_immaterial(file, ws, cws);
    assert forall|i: int, p: int|
        0 <= i < chunks.len() && (#[trigger] chunks[i]).start_byte <= p
            <= chunks[i].end_byte implies #[trigger] apply_writes(file, ws)[p] == bodies[i][p
            - chunks[i].start_byte] by {
        assert(cws[i].covers(p));
        lemma_apply_writes_value(file, cws, i, p);
    }
}

/// Write `data` into the file image starting at `offset`.
pub fn write_at(file: &mut Vec<u8>, offset: usize, data: &Vec<u8>)
    requires
        offset + data@.len() <= old(file)@.len(),
    ensures
        final(file)@ == apply_write(
            old(file)@,
            FileWrite { offset: offset as nat, data: data@ },
        ),
{
    let n: usize = data.len();
    let flen: usize = file.len();
    let mut k: usize = 0;
    while k < n
        invariant
            n == data@.len(),
            flen == file@.len(),
            offset + n <= file@.len(),
            file@.len() == old(file)@.len(),
            k <= n,
            forall|p: int|
                0 <= p < file@.len() ==> #[trigger] file@[p] == (if offset <= p < offset + k {
                    data@[p - offset]
                } else {
                    old(file)@[p]
                }),
        decreases n - k,
    {
        let b: u8 = data[k];
        file.set(offset + k, b);
        k += 1;
    }
    proof {
        assert(file@ =~= apply_write(
            old(file)@,
            FileWrite { offset: offset as nat, data: data@ },
        ));
    }
}

} // verus!
