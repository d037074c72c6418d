//! Grouping a frame's operations into chunks. A frame is an ordered
//! sequence of operations; a chunk is either one stand-alone operation or a
//! query/header directive followed by its contiguous continuations. Chunks
//! are derived on demand and own nothing: each is a pair of positions into
//! the frame, which is never changed or reordered.

use vstd::prelude::*;
use crate::terminator::Terminator;
use crate::op::Op;

verus! {

/// One chunk of a frame: the operations at positions `start` up to, but
/// excluding, `end`.
#[derive(Clone, Copy, PartialEq, Eq, Structural, Debug)]
pub struct Chunk {
    pub start: usize,
    pub end: usize,
}

/// The structural fault a frame can carry.
#[derive(Clone, Copy, PartialEq, Eq, Structural, Debug)]
pub enum ChunkError {
    /// A continuation with nothing to continue: the operation at `at` is
    /// `Reduced` yet no chunk is open before it.
    Dangling { at: usize },
}

/// The terminators of a frame's operations, in order.
pub open spec fn frame_terms(ops: Seq<Op>) -> Seq<Terminator> {
    ops.map(|i: int, op: Op| op.term)
}

/// Whether the terminator opens a chunk as that chunk's directive.
pub open spec fn opens_chunk(t: Terminator) -> bool {
    t == Terminator::Query || t == Terminator::Header
}

/// A continuation with nothing to continue: a `Reduced` operation at the
/// start of the frame or directly after a stand-alone operation.
pub open spec fn dangling_at(terms: Seq<Terminator>, i: int) -> bool {
    &&& 0 <= i < terms.len()
    &&& terms[i] == Terminator::Reduced
    &&& (i == 0 || terms[i - 1] == Terminator::Raw)
}

/// One well-shaped chunk: non-empty, never headed by a continuation, a
/// stand-alone operation chunks alone, and everything after the head is a
/// continuation.
pub open spec fn wf_chunk(terms: Seq<Terminator>, c: Chunk) -> bool {
    &&& c.start < c.end <= terms.len()
    &&& terms[c.start as int] != Terminator::Reduced
    &&& (terms[c.start as int] == Terminator::Raw ==> c.end == c.start + 1)
    &&& forall|i: int| c.start < i < c.end ==> terms[i] == Terminator::Reduced
}

/// A full chunking of a frame: consecutive well-shaped chunks that begin
/// at the first operation and end at the last, in frame order.
pub open spec fn wf_chunks(terms: Seq<Terminator>, chunks: Seq<Chunk>) -> bool {
    &&& forall|k: int| 0 <= k < chunks.len() ==> wf_chunk(terms, #[trigger] chunks[k])
    &&& (chunks.len() == 0 ==> terms.len() == 0)
    &&& (chunks.len() > 0 ==> chunks[0].start == 0 && chunks[chunks.len() - 1].end
        == terms.len())
    &&& forall|k: int| 0 < k < chunks.len() ==> (#[trigger] chunks[k]).start == chunks[k
        - 1].end
}

/// The end of one well-shaped chunk at a given start is forced: a
/// stand-alone head chunks alone, and any other chunk runs to the first
/// operation that is not a continuation.
proof fn lemma_chunk_prefix(terms: Seq<Terminator>, a: Seq<Chunk>, b: Seq<Chunk>, k: int)
    requires
        wf_chunks(terms, a),
        wf_chunks(terms, b),
        0 <= k < a.len(),
        k < b.len(),
    ensures
        a[k] == b[k],
    decreases k,
{
    if k == 0 {
        assert(a[0].start == 0 && b[0].start == 0);
    } else {
        lemma_chunk_prefix(terms, a, b, k - 1);
        assert(a[k].start == a[k - 1].end);
        assert(b[k].start == b[k - 1].end);
    }
    let s = a[k].start as int;
    let ea = a[k].end as int;
    let eb = b[k].end as int;
    assert(wf_chunk(terms, a[k]));
    assert(wf_chunk(terms, b[k]));
    if terms[s] == Terminator::Raw {
        assert(ea == s + 1 && eb == s + 1);
    } else {
        // each end either reaches the frame's end or stops right before a
        // head, so it is the first non-continuation after the start
        assert(ea == terms.len() || terms[ea] != Terminator::Reduced) by {
            if k < a.len() - 1 {
                assert(wf_chunk(terms, a[k + 1]));
                assert(a[k + 1].start == a[k].end);
            }
        }
        assert(eb == terms.len() || terms[eb] != Terminator::Reduced) by {
            if k < b.len() - 1 {
                assert(wf_chunk(terms, b[k + 1]));
                assert(b[k + 1].start == b[k].end);
            }
        }
        if ea < eb {
            assert(terms[ea] == Terminator::Reduced);
            assert(false);
        }
        if eb < ea {
            assert(terms[eb] == Terminator::Reduced);
            assert(false);
        }
    }
}

/// Law: a frame has at most one full chunking — the conditions of
/// `wf_chunks` pin both how many chunks there are and where each begins
/// and ends.
pub proof fn lemma_chunking_unique(terms: Seq<Terminator>, a: Seq<Chunk>, b: Seq<Chunk>)
    requires
        wf_chunks(terms, a),
        wf_chunks(terms, b),
    ensures
        a == b,
{
    if a.len() == 0 || b.len() == 0 {
        assert(a.len() == 0 && b.len() == 0) by {
            if a.len() == 0 && b.len() > 0 {
                assert(wf_chunk(terms, b[0]));
            }
            if b.len() == 0 && a.len() > 0 {
                assert(wf_chunk(terms, a[0]));
            }
        }
        assert(a =~= b);
    } else {
        assert forall|k: int| 0 <= k < a.len() && k < b.len() implies a[k] == b[k] by {
            lemma_chunk_prefix(terms, a, b, k);
        }
        assert(a.len() == b.len()) by {
            if a.len() < b.len() {
                let k = a.len() - 1;
                assert(a[k] == b[k]);
                assert(b[k + 1].start == b[k].end);
                assert(wf_chunk(terms, b[k + 1]));
            }
            if b.len() < a.len() {
                let k = b.len() - 1;
                assert(a[k] == b[k]);
                assert(a[k + 1].start == a[k].end);
                assert(wf_chunk(terms, a[k + 1]));
            }
        }
        assert(a =~= b);
    }
}

/// Groups a frame's operations into chunks in one left-to-right pass,
/// reading only the terminators. A stand-alone operation closes whatever
/// chunk is open and forms its own; a query or header closes whatever chunk
/// is open and opens a new one; a continuation extends the open chunk, and
/// with no chunk open the pass fails at the first such operation.
#[verifier::loop_isolation(false)]
#[verifier::rlimit(100)]
#[verifier::spinoff_prover]
pub fn chunk_frame(frame: &Vec<Op>) -> (r: Result<Vec<Chunk>, ChunkError>)
    ensures
        match r {
            Ok(chunks) => wf_chunks(frame_terms(frame@), chunks@) && (forall|i: int|
                !dangling_at(frame_terms(frame@), i)),
            Err(e) => match e {
                ChunkError::Dangling { at } => dangling_at(frame_terms(frame@), at as int) && (
                forall|j: int| 0 <= j < at ==> !dangling_at(frame_terms(frame@), j)),
            },
        },
{
    let ghost terms = frame_terms(frame@);
    let mut chunks: Vec<Chunk> = Vec::new();
    // whether a chunk is open, and where the open one starts
    let mut open: bool = false;
    let mut st: usize = 0;
    let mut i: usize = 0;
    while i < frame.len()
        invariant
            i <= frame.len(),
            terms.len() == frame.len(),
            forall|k: int| 0 <= k < chunks@.len() ==> wf_chunk(terms, #[trigger] chunks@[k]),
            forall|k: int|
                0 < k < chunks@.len() ==> (#[trigger] chunks@[k]).start == chunks@[k - 1].end,
            chunks@.len() > 0 ==> chunks@[0].start == 0,
            open ==> st < i && opens_chunk(terms[st as int]),
            open ==> forall|t: int| st < t < i ==> terms[t] == Terminator::Reduced,
            !open ==> i == 0 || terms[i - 1] == Terminator::Raw,
            chunks@.len() == 0 ==> (if open {
                st == 0
            } else {
                i == 0
            }),
            chunks@.len() > 0 ==> chunks@[chunks@.len() - 1].end == (if open {
                st as int
            } else {
                i as int
            }),
            forall|j: int| 0 <= j < i ==> !dangling_at(terms, j),
        decreases frame.len() - i,
    {
        proof {
            assert(terms[i as int] == frame@[i as int].term);
        }
        let tm = frame[i].term;
        match tm {
            Terminator::Raw => {
                if open {
                    let c = Chunk { start: st, end: i };
                    proof {
                        assert(wf_chunk(terms, c));
                    }
                    chunks.push(c);
                }
                let c = Chunk { start: i, end: i + 1 };
                proof {
                    assert(wf_chunk(terms, c));
                }
                chunks.push(c);
                open = false;
            },
            Terminator::Query | Terminator::Header => {
                if open {
                    let c = Chunk { start: st, end: i };
                    proof {
                        assert(wf_chunk(terms, c));
                    }
                    chunks.push(c);
                }
                open = true;
                st = i;
            },
            Terminator::Reduced => {
                if !open {
                    proof {
                        assert(dangling_at(terms, i as int));
                    }
                    return Err(ChunkError::Dangling { at: i });
                }
                proof {
                    assert(terms[i - 1] != Terminator::Raw);
                }
            },
        }
        proof {
            assert(!dangling_at(terms, i as int));
        }
        i += 1;
    }
    if open {
        let c = Chunk { start: st, end: frame.len() };
        proof {
            assert(wf_chunk(terms, c));
        }
        chunks.push(c);
    }
    proof {
        assert(wf_chunks(terms, chunks@));
    }
    Ok(chunks)
}

} // verus!
