//! What holds of the encoder and the patch applier together: a delta,
//! applied to its base, gives the target back.

use vstd::bytes::*;
use vstd::prelude::*;

use crate::apply::{apply_result, first_step, patch, patch_all, replay, Replay, StepView, StreamEnd};
use crate::encode::{
    buffer_runs_from, compared_len, delta_bytes, delta_runs, extension_bytes, window_len,
};
use crate::format::{
    header_bytes, header_round_trip, parse_header, Format, Header, HeaderError, EXTENSION_MARKER,
    FORMAT_VERSION, HEADER_LEN, RECORD_PREFIX_LEN,
};
use crate::record::{runs_bytes, Run};
use crate::scan::{run_len, run_len_bounds, runs_from, window_runs};
use crate::shape::buffer_runs_are_ordered;

verus! {

/// Writing two lists of runs over a buffer, one list after the other, is
/// writing their concatenation.
pub proof fn patch_all_concat(buf: Seq<u8>, x: Seq<Run>, y: Seq<Run>)
    ensures
        patch_all(buf, x + y) == patch_all(patch_all(buf, x), y),
    decreases x.len(),
{
    if x.len() == 0 {
        assert(x + y =~= y);
    } else {
        assert((x + y).drop_first() =~= x.drop_first() + y);
        patch_all_concat(patch(buf, x[0].offset as int, x[0].payload), x.drop_first(), y);
    }
}

/// The runs of a pair of windows, written over a buffer that holds the
/// window `a` at `base`, turn that part of the buffer into the window `b`:
/// here from position `i` of the windows on.
pub proof fn window_runs_patch(buf: Seq<u8>, a: Seq<u8>, b: Seq<u8>, i: int, base: nat, cap: nat)
    requires
        a.len() == b.len(),
        0 <= i <= a.len(),
        cap >= 1,
        base + a.len() <= buf.len(),
        forall|j: int| i <= j < a.len() ==> buf[base + j] == a[j],
    ensures
        patch_all(buf, runs_from(a, b, i, base, cap)) == patch(buf, base + i, b.skip(i)),
    decreases a.len() - i,
{
    if i >= a.len() {
        assert(patch(buf, base + i, b.skip(i)) =~= buf);
    } else if a[i] == b[i] {
        window_runs_patch(buf, a, b, i + 1, base, cap);
        assert(patch(buf, base + i + 1, b.skip(i + 1)) =~= patch(buf, base + i, b.skip(i)));
    } else {
        let n = run_len(a, b, i, cap);
        run_len_bounds(a, b, i, cap);
        let first = Run { offset: (base + i) as nat, payload: b.subrange(i, i + n) };
        let rest = runs_from(a, b, i + n, base, cap);
        let next = patch(buf, base + i, first.payload);
        window_runs_patch(next, a, b, i + n, base, cap);
        assert((seq![first] + rest).drop_first() =~= rest);
        assert(patch(next, base + i + n, b.skip(i + n)) =~= patch(buf, base + i, b.skip(i)));
    }
}

/// The runs of two buffers, written over a buffer that holds `a` from
/// `offset` to `total`, turn that part into the bytes of `b`.
pub proof fn buffer_runs_patch(
    buf: Seq<u8>,
    a: Seq<u8>,
    b: Seq<u8>,
    offset: int,
    total: int,
    cap: nat,
)
    requires
        0 <= offset <= total,
        total <= a.len(),
        total <= b.len(),
        total <= buf.len(),
        cap >= 1,
        forall|j: int| offset <= j < total ==> buf[j] == a[j],
    ensures
        patch_all(buf, buffer_runs_from(a, b, offset, total, cap)) == patch(
            buf,
            offset,
            b.subrange(offset, total),
        ),
    decreases total - offset,
{
    if offset >= total {
        assert(patch(buf, offset, b.subrange(offset, total)) =~= buf);
    } else {
        let n = window_len(offset, total);
        let wa = a.subrange(offset, offset + n);
        let wb = b.subrange(offset, offset + n);
        let window = window_runs(wa, wb, offset as nat, cap);
        let rest = buffer_runs_from(a, b, offset + n, total, cap);
        window_runs_patch(buf, wa, wb, 0, offset as nat, cap);
        let next = patch(buf, offset, wb.skip(0));
        assert(patch_all(buf, window) == next);
        buffer_runs_patch(next, a, b, offset + n, total, cap);
        patch_all_concat(buf, window, rest);
        assert(patch(next, offset + n, b.subrange(offset + n, total)) =~= patch(
            buf,
            offset,
            b.subrange(offset, total),
        ));
    }
}

/// A stream that starts with the record of a run that fits the layout has
/// that run as its first step.
pub proof fn record_reads_back(run: Run, rest: Seq<u8>, format: Format)
    requires
        run.fits(format),
    ensures
        first_step(run.bytes() + rest, format) == (StepView::Record { run }),
        (run.bytes() + rest).skip(RECORD_PREFIX_LEN + run.payload.len()) == rest,
{
    lemma_auto_spec_u64_to_from_le_bytes();
    let s = run.bytes() + rest;
    let len = run.payload.len();
    assert(spec_u64_to_le_bytes(run.offset as u64).len() == 8);
    assert(s.subrange(0, 8) =~= spec_u64_to_le_bytes(run.offset as u64));
    assert(s[8] == len as u8);
    assert(s.subrange(RECORD_PREFIX_LEN as int, RECORD_PREFIX_LEN + len) =~= run.payload);
    assert(s.skip(RECORD_PREFIX_LEN + len) =~= rest);
}

/// Replaying the records of runs that fit the layout writes the runs over
/// the buffer, counts them, and goes on with what follows them.
pub proof fn replay_of_runs(buf: Seq<u8>, runs: Seq<Run>, tail: Seq<u8>, format: Format)
    requires
        forall|k: int| 0 <= k < runs.len() ==> (#[trigger] runs[k]).fits(format),
    ensures
        replay(buf, runs_bytes(runs) + tail, format) == ({
            let rest = replay(patch_all(buf, runs), tail, format);
            Replay { data: rest.data, applied: rest.applied + runs.len(), end: rest.end }
        }),
    decreases runs.len(),
{
    if runs.len() == 0 {
        assert(runs_bytes(runs) + tail =~= tail);
    } else {
        let first = runs[0];
        let others = runs.drop_first();
        let s = runs_bytes(runs) + tail;
        assert(s =~= first.bytes() + (runs_bytes(others) + tail));
        record_reads_back(first, runs_bytes(others) + tail, format);
        assert forall|k: int| 0 <= k < others.len() implies (#[trigger] others[k]).fits(format) by {
            assert(others[k] == runs[k + 1]);
        }
        replay_of_runs(patch(buf, first.offset as int, first.payload), others, tail, format);
    }
}

/// Replaying a trailing extension appends its tail.
pub proof fn replay_of_extension(buf: Seq<u8>, offset: nat, tail: Seq<u8>)
    ensures
        replay(buf, extension_bytes(offset, tail), Format::Extended) == (Replay {
            data: buf + tail,
            applied: 0,
            end: StreamEnd::Extension,
        }),
{
    lemma_auto_spec_u64_to_from_le_bytes();
    let s = extension_bytes(offset, tail);
    assert(spec_u64_to_le_bytes(offset as u64).len() == 8);
    assert(s[8] == EXTENSION_MARKER);
    assert(s.skip(RECORD_PREFIX_LEN as int) =~= tail);
}

/// The runs of a delta, written over the base, turn the compared bytes of
/// the base into those of the target; each of them fits the delta's layout.
pub proof fn delta_runs_patch(a: Seq<u8>, b: Seq<u8>, format: Format)
    requires
        compared_len(a, b) <= u64::MAX,
    ensures
        patch_all(a, delta_runs(a, b, format)) == patch(a, 0, b.take(compared_len(a, b))),
        forall|k: int|
            0 <= k < delta_runs(a, b, format).len() ==> (#[trigger] delta_runs(
                a,
                b,
                format,
            )[k]).fits(format),
{
    let total = compared_len(a, b);
    buffer_runs_patch(a, a, b, 0, total, format.run_cap());
    buffer_runs_are_ordered(a, b, 0, total, format.run_cap());
    assert(b.subrange(0, total) =~= b.take(total));
}

/// Round trip in the extended layout: for a base no longer than the target,
/// applying the delta to the base gives the target, byte for byte. Every
/// record of the delta is applied, and the replay ends with the extension
/// where the target is the longer buffer. The header of the delta declares
/// the target's length.
pub proof fn round_trip_extended(a: Seq<u8>, b: Seq<u8>)
    requires
        a.len() <= b.len(),
        b.len() <= u64::MAX,
    ensures
        parse_header(delta_bytes(a, b, Format::Extended)) == Ok::<Header, HeaderError>(
            Header { version: FORMAT_VERSION, declared_size: b.len() as u64 },
        ),
        apply_result(a, delta_bytes(a, b, Format::Extended), Format::Extended) == Ok::<
            Replay,
            HeaderError,
        >(
            Replay {
                data: b,
                applied: delta_runs(a, b, Format::Extended).len(),
                end: if b.len() > a.len() {
                    StreamEnd::Extension
                } else {
                    StreamEnd::Complete
                },
            },
        ),
{
    let format = Format::Extended;
    let header = Header { version: FORMAT_VERSION, declared_size: b.len() as u64 };
    let runs = delta_runs(a, b, format);
    let tail = if b.len() > a.len() {
        extension_bytes(a.len(), b.skip(a.len() as int))
    } else {
        Seq::empty()
    };
    let delta = delta_bytes(a, b, format);
    let stream = runs_bytes(runs) + tail;
    assert(delta =~= header_bytes(header) + stream);
    header_round_trip(header, stream);
    assert(delta.skip(HEADER_LEN as int) =~= stream);
    delta_runs_patch(a, b, format);
    replay_of_runs(a, runs, tail, format);
    let patched = patch_all(a, runs);
    assert(patched =~= b.take(a.len() as int));
    if b.len() > a.len() {
        replay_of_extension(patched, a.len(), b.skip(a.len() as int));
        assert(patched + b.skip(a.len() as int) =~= b);
    } else {
        assert(patched =~= b);
    }
}

/// Replay in the plain layout: applying the delta to the base gives the
/// base with its first bytes, as many as were compared, replaced by the
/// target's. What either buffer holds behind them is not in the delta.
pub proof fn plain_delta_replay(a: Seq<u8>, b: Seq<u8>)
    requires
        compared_len(a, b) <= u64::MAX,
    ensures
        apply_result(a, delta_bytes(a, b, Format::Plain), Format::Plain) == Ok::<
            Replay,
            HeaderError,
        >(
            Replay {
                data: b.take(compared_len(a, b)) + a.skip(compared_len(a, b)),
                applied: delta_runs(a, b, Format::Plain).len(),
                end: StreamEnd::Complete,
            },
        ),
{
    let format = Format::Plain;
    let runs = delta_runs(a, b, format);
    delta_runs_patch(a, b, format);
    replay_of_runs(a, runs, Seq::empty(), format);
    assert(runs_bytes(runs) + Seq::<u8>::empty() =~= runs_bytes(runs));
    let total = compared_len(a, b);
    assert(patch(a, 0, b.take(total)) =~= b.take(total) + a.skip(total));
}

/// Round trip in the plain layout: for buffers of one length, applying the
/// delta to the base gives the target, byte for byte.
pub proof fn round_trip_plain(a: Seq<u8>, b: Seq<u8>)
    requires
        a.len() == b.len(),
        b.len() <= u64::MAX,
    ensures
        apply_result(a, delta_bytes(a, b, Format::Plain), Format::Plain) == Ok::<
            Replay,
            HeaderError,
        >(
            Replay {
                data: b,
                applied: delta_runs(a, b, Format::Plain).len(),
                end: StreamEnd::Complete,
            },
        ),
{
    plain_delta_replay(a, b);
    assert(b.take(b.len() as int) + a.skip(a.len() as int) =~= b);
}

} // verus!
