//! Data units flowing through the sink, and the mathematical model of a
//! whole pipeline input: per-worker streams of units, each unit carrying a
//! sequence token and the result of the caller-supplied encode transform.
//!
//! A well-formed input assigns every unit a distinct sequence, the sequences
//! of one worker's stream increase along the stream, and across all workers
//! the sequences are exactly `0 .. total`. These are the upstream
//! distributor's obligations; everything the sink guarantees is stated
//! relative to them.

use vstd::prelude::*;

verus! {

/// Error returned by the caller-supplied encode transform for one unit.
#[derive(Clone, Copy, PartialEq, Eq, Structural, Debug)]
pub struct EncodeError {
    /// Caller-chosen code identifying the underlying cause.
    pub code: u64,
}

/// The aggregated, user-visible failure of a sink run: which stage failed,
/// and at which sequence.
#[derive(Clone, Copy, PartialEq, Eq, Structural, Debug)]
pub enum SinkError {
    /// The encode transform failed on the unit with this sequence.
    Encode { seq: u64, cause: EncodeError },
    /// The external write failed after this many bytes were written.
    Io { written: u64 },
}

/// One unit of data entering the pipeline: its sequence token and what the
/// caller-supplied encode transform produced for it. The transform is pure,
/// so its outcome is fixed per unit and can travel with it.
pub struct Unit {
    pub seq: u64,
    pub encoded: Result<Vec<u8>, EncodeError>,
}

/// An encoded chunk: the bytes produced for exactly one unit, tagged with
/// that unit's sequence.
pub struct EncodedChunk {
    pub seq: u64,
    pub bytes: Vec<u8>,
}

/// The encode transform succeeded on this unit.
pub open spec fn unit_ok(u: Unit) -> bool {
    u.encoded is Ok
}

/// The bytes the encode transform produced for this unit.
pub open spec fn unit_bytes(u: Unit) -> Seq<u8>
    recommends
        unit_ok(u),
{
    (u.encoded->Ok_0)@
}

/// Sequences strictly increase along one worker's stream.
pub open spec fn stream_ordered(s: Seq<Unit>) -> bool {
    forall|i: int, j: int| 0 <= i < j < s.len() ==> s[i].seq < s[j].seq
}

/// The number of units across all streams.
pub open spec fn total_units(ws: Seq<Seq<Unit>>) -> int
    decreases ws.len(),
{
    if ws.len() == 0 {
        0
    } else {
        total_units(ws.drop_last()) + ws.last().len()
    }
}

/// Some unit in some stream carries sequence `s`.
pub open spec fn has_seq(ws: Seq<Seq<Unit>>, s: int) -> bool {
    exists|w: int, i: int|
        0 <= w < ws.len() && 0 <= i < ws[w].len() && ws[w][i].seq == s
}

/// No two units (in the same stream or in different streams) share a
/// sequence.
pub open spec fn distinct_seqs(ws: Seq<Seq<Unit>>) -> bool {
    forall|w1: int, i1: int, w2: int, i2: int|
        0 <= w1 < ws.len() && 0 <= i1 < ws[w1].len() && 0 <= w2 < ws.len() && 0 <= i2
            < ws[w2].len() && (w1 != w2 || i1 != i2) ==> ws[w1][i1].seq != ws[w2][i2].seq
}

/// A well-formed pipeline input: each stream ordered, every sequence below
/// the total, all sequences distinct, and every sequence in `0 .. total`
/// present — i.e. sequences are assigned exactly once, contiguously from 0.
pub open spec fn wf_inputs(ws: Seq<Seq<Unit>>) -> bool {
    &&& forall|w: int| 0 <= w < ws.len() ==> stream_ordered(ws[w])
    &&& forall|w: int, i: int|
        0 <= w < ws.len() && 0 <= i < ws[w].len() ==> ws[w][i].seq < total_units(ws)
    &&& distinct_seqs(ws)
    &&& forall|s: int| 0 <= s < total_units(ws) ==> has_seq(ws, s)
    &&& total_units(ws) < u64::MAX
}

/// The unit carrying sequence `s` (meaningful when such a unit exists and
/// sequences are distinct).
pub open spec fn unit_at(ws: Seq<Seq<Unit>>, s: int) -> Unit {
    let (w, i) = choose|w: int, i: int|
        0 <= w < ws.len() && 0 <= i < ws[w].len() && ws[w][i].seq == s;
    ws[w][i]
}

/// The concatenation of the encoded bytes of the units with sequences
/// `0, 1, .., upto - 1`, in sequence order.
pub open spec fn ordered_bytes(ws: Seq<Seq<Unit>>, upto: int) -> Seq<u8>
    decreases upto,
{
    if upto <= 0 {
        Seq::empty()
    } else {
        ordered_bytes(ws, upto - 1) + unit_bytes(unit_at(ws, upto - 1))
    }
}

/// Every unit with sequence below `k` encodes successfully.
pub open spec fn all_ok_below(ws: Seq<Seq<Unit>>, k: int) -> bool {
    forall|s: int| 0 <= s < k ==> unit_ok(#[trigger] unit_at(ws, s))
}

/// What a finished sink run guarantees about the bytes handed to the
/// external sink and the surfaced error, for a well-formed input: on
/// success the output is the sequence-ordered concatenation of every unit's
/// bytes; on failure the failing sequence `k` is the least failing one and
/// the output is exactly the bytes of the units before it.
pub open spec fn sink_run_post(
    ws: Seq<Seq<Unit>>,
    written: Seq<u8>,
    error: Option<SinkError>,
) -> bool {
    match error {
        None => all_ok_below(ws, total_units(ws)) && written == ordered_bytes(
            ws,
            total_units(ws),
        ),
        Some(e) => {
            &&& e matches SinkError::Encode { seq: k, cause } && 0 <= k < total_units(ws)
                && !unit_ok(unit_at(ws, k as int)) && unit_at(ws, k as int).encoded ==
            Result::<Vec<u8>, EncodeError>::Err(cause) && all_ok_below(ws, k as int) && written
                == ordered_bytes(ws, k as int)
        },
    }
}

/// The total unit count is never negative.
pub proof fn lemma_total_units_nonneg(ws: Seq<Seq<Unit>>)
    ensures
        total_units(ws) >= 0,
    decreases ws.len(),
{
    if ws.len() > 0 {
        lemma_total_units_nonneg(ws.drop_last());
    }
}

/// With distinct sequences, `unit_at` recovers exactly the unit at a known
/// position: if stream `w` holds a unit with sequence `s` at index `i`,
/// then `unit_at(ws, s)` is that unit.
pub proof fn lemma_unit_at(ws: Seq<Seq<Unit>>, w: int, i: int)
    requires
        distinct_seqs(ws),
        0 <= w < ws.len(),
        0 <= i < ws[w].len(),
    ensures
        unit_at(ws, ws[w][i].seq as int) == ws[w][i],
{
    let s = ws[w][i].seq as int;
    assert(0 <= w < ws.len() && 0 <= i < ws[w].len() && ws[w][i].seq == s);
    let (w2, i2) = choose|w2: int, i2: int|
        0 <= w2 < ws.len() && 0 <= i2 < ws[w2].len() && ws[w2][i2].seq == s;
    if w2 != w || i2 != i {
        assert(ws[w2][i2].seq != ws[w][i].seq);
    }
}

} // verus!
