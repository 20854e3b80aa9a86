//! What the runs of a delta look like: where they lie, what they cover, and
//! where a stretch of differing bytes is cut into several of them.

use vstd::prelude::*;

use crate::encode::{buffer_runs_from, compared_len, delta_bytes, delta_runs, window_len};
use crate::format::{header_bytes, Format, Header, CHUNK_SIZE, FORMAT_VERSION};
use crate::record::{runs_bytes, Run};
use crate::scan::{
    differs, no_difference_no_runs, runs_are_maximal, runs_are_ordered, runs_cover_differences,
    window_runs,
};

verus! {

/// Whether the run lies inside one chunk: its first and its last position
/// fall between the same two multiples of the chunk size.
pub open spec fn in_one_chunk(r: Run) -> bool {
    r.offset as int / CHUNK_SIZE as int == (r.end() - 1) / CHUNK_SIZE as int
}

/// Whether the run `r` is one that a delta from `a` to `b` may hold among
/// the positions `offset` to `total`: 1 to `cap` bytes long, inside one
/// chunk, on differing positions only, with the bytes of `b` at them.
pub open spec fn is_delta_run(
    a: Seq<u8>,
    b: Seq<u8>,
    offset: int,
    total: int,
    cap: nat,
    r: Run,
) -> bool {
    &&& 1 <= r.payload.len() <= cap
    &&& offset <= r.offset
    &&& r.end() <= total
    &&& in_one_chunk(r)
    &&& r.payload == b.subrange(r.offset as int, r.end() as int)
    &&& forall|p: int| r.offset <= p < r.end() ==> differs(a, b, p)
}

/// Whether the run `r` ends where it has to: it has `cap` bytes, or the
/// compared bytes or a chunk end behind it, or the byte behind it does not
/// differ.
pub open spec fn ends_late(a: Seq<u8>, b: Seq<u8>, total: int, cap: nat, r: Run) -> bool {
    ||| r.payload.len() == cap
    ||| r.end() == total
    ||| r.end() as int % CHUNK_SIZE as int == 0
    ||| !differs(a, b, r.end() as int)
}

/// What holds of the runs of two buffers: each is 1 to `cap` bytes long,
/// covers differing positions only and carries the bytes of `b` at them;
/// none crosses a multiple of the chunk size; each goes on as far as these
/// limits allow; and the runs come in the order of their positions, none
/// reaching into the next.
pub proof fn buffer_runs_are_ordered(a: Seq<u8>, b: Seq<u8>, offset: int, total: int, cap: nat)
    requires
        0 <= offset <= total,
        total <= a.len(),
        total <= b.len(),
        offset % (CHUNK_SIZE as int) == 0,
    ensures
        buffer_runs_from(a, b, offset, total, cap).len() <= total - offset,
        forall|k: int|
            #![trigger buffer_runs_from(a, b, offset, total, cap)[k]]
            0 <= k < buffer_runs_from(a, b, offset, total, cap).len() ==> {
                let r = buffer_runs_from(a, b, offset, total, cap)[k];
                is_delta_run(a, b, offset, total, cap, r) && ends_late(a, b, total, cap, r)
            },
        forall|j: int, k: int|
            #![trigger buffer_runs_from(a, b, offset, total, cap)[j], buffer_runs_from(a, b, offset, total, cap)[k]]
            0 <= j < k < buffer_runs_from(a, b, offset, total, cap).len() ==> buffer_runs_from(
                a,
                b,
                offset,
                total,
                cap,
            )[j].end() <= buffer_runs_from(a, b, offset, total, cap)[k].offset,
    decreases total - offset,
{
    let runs = buffer_runs_from(a, b, offset, total, cap);
    if offset < total {
        let n = window_len(offset, total);
        let wa = a.subrange(offset, offset + n);
        let wb = b.subrange(offset, offset + n);
        let window = window_runs(wa, wb, offset as nat, cap);
        let rest = buffer_runs_from(a, b, offset + n, total, cap);
        runs_are_ordered(wa, wb, 0, offset as nat, cap);
        runs_are_maximal(wa, wb, 0, offset as nat, cap);
        if offset + n < total {
            buffer_runs_are_ordered(a, b, offset + n, total, cap);
        }
        assert(runs == window + rest);
        assert forall|k: int| 0 <= k < window.len() implies is_delta_run(
            a,
            b,
            offset,
            offset + n,
            cap,
            #[trigger] window[k],
        ) && ends_late(a, b, total, cap, window[k]) by {
            let r = window[k];
            assert(r.payload =~= b.subrange(r.offset as int, r.end() as int));
            assert forall|p: int| r.offset <= p < r.end() implies differs(a, b, p) by {
                assert(differs(wa, wb, p - offset));
            }
            if r.end() < offset + n && r.payload.len() != cap {
                assert(!differs(wa, wb, r.end() - offset));
            }
        }
        assert forall|k: int| 0 <= k < runs.len() implies is_delta_run(
            a,
            b,
            offset,
            total,
            cap,
            #[trigger] runs[k],
        ) && ends_late(a, b, total, cap, runs[k]) by {
            if k < window.len() {
                assert(runs[k] == window[k]);
            } else {
                assert(runs[k] == rest[k - window.len()]);
            }
        }
        assert forall|j: int, k: int| 0 <= j < k < runs.len() implies (#[trigger] runs[j]).end()
            <= (#[trigger] runs[k]).offset by {
            if k < window.len() {
                assert(runs[k] == window[k]);
                assert(runs[j] == window[j]);
            } else {
                assert(runs[k] == rest[k - window.len()]);
                if j < window.len() {
                    assert(runs[j] == window[j]);
                } else {
                    assert(runs[j] == rest[j - window.len()]);
                }
            }
        }
    }
}

/// The runs of two buffers cover every differing position among the
/// compared ones.
pub proof fn buffer_runs_cover_differences(
    a: Seq<u8>,
    b: Seq<u8>,
    offset: int,
    total: int,
    cap: nat,
    p: int,
)
    requires
        0 <= offset <= p < total,
        total <= a.len(),
        total <= b.len(),
        1 <= cap,
        differs(a, b, p),
    ensures
        exists|k: int|
            0 <= k < buffer_runs_from(a, b, offset, total, cap).len() && (#[trigger] buffer_runs_from(
                a,
                b,
                offset,
                total,
                cap,
            )[k]).offset <= p < buffer_runs_from(a, b, offset, total, cap)[k].end(),
    decreases total - offset,
{
    let runs = buffer_runs_from(a, b, offset, total, cap);
    let n = window_len(offset, total);
    let wa = a.subrange(offset, offset + n);
    let wb = b.subrange(offset, offset + n);
    let window = window_runs(wa, wb, offset as nat, cap);
    let rest = buffer_runs_from(a, b, offset + n, total, cap);
    assert(runs == window + rest);
    if p < offset + n {
        assert(differs(wa, wb, p - offset));
        runs_cover_differences(wa, wb, 0, offset as nat, cap, p - offset);
        let k = choose|k: int|
            0 <= k < window.len() && (#[trigger] window[k]).offset <= offset + (p - offset)
                < window[k].end();
        assert(runs[k] == window[k]);
    } else {
        buffer_runs_cover_differences(a, b, offset + n, total, cap, p);
        let k = choose|k: int|
            0 <= k < rest.len() && (#[trigger] rest[k]).offset <= p < rest[k].end();
        assert(runs[k + window.len()] == rest[k]);
    }
}

/// What holds of the runs of a delta: each is at least one byte long and no
/// longer than the layout allows, lies among the compared bytes and inside
/// one chunk, covers differing positions only and carries the bytes of the
/// target at them, and goes on as far as these limits allow. The runs come
/// in the order of their positions, and none reaches into the next.
pub proof fn delta_runs_are_ordered(a: Seq<u8>, b: Seq<u8>, format: Format)
    ensures
        delta_runs(a, b, format).len() <= compared_len(a, b),
        forall|k: int|
            #![trigger delta_runs(a, b, format)[k]]
            0 <= k < delta_runs(a, b, format).len() ==> {
                let r = delta_runs(a, b, format)[k];
                &&& is_delta_run(a, b, 0, compared_len(a, b), format.run_cap(), r)
                &&& ends_late(a, b, compared_len(a, b), format.run_cap(), r)
            },
        forall|j: int, k: int|
            #![trigger delta_runs(a, b, format)[j], delta_runs(a, b, format)[k]]
            0 <= j < k < delta_runs(a, b, format).len() ==> delta_runs(a, b, format)[j].end()
                <= delta_runs(a, b, format)[k].offset,
{
    buffer_runs_are_ordered(a, b, 0, compared_len(a, b), format.run_cap());
}

/// The runs of a delta cover every position among the compared ones at
/// which the two buffers differ.
pub proof fn delta_runs_cover_differences(a: Seq<u8>, b: Seq<u8>, format: Format, p: int)
    requires
        differs(a, b, p),
    ensures
        exists|k: int|
            0 <= k < delta_runs(a, b, format).len() && (#[trigger] delta_runs(
                a,
                b,
                format,
            )[k]).offset <= p < delta_runs(a, b, format)[k].end(),
{
    let runs = buffer_runs_from(a, b, 0, compared_len(a, b), format.run_cap());
    buffer_runs_cover_differences(a, b, 0, compared_len(a, b), format.run_cap(), p);
    let k = choose|k: int| 0 <= k < runs.len() && (#[trigger] runs[k]).offset <= p < runs[k].end();
    assert(delta_runs(a, b, format)[k] == runs[k]);
}

/// Whether the positions `s` to `s + m` are a whole stretch of differing
/// bytes among the first `total`: they all differ, and on either side stands
/// a byte that does not differ, or none of the compared bytes at all.
pub open spec fn is_stretch(a: Seq<u8>, b: Seq<u8>, total: int, s: int, m: int) -> bool {
    &&& 0 <= s
    &&& 1 <= m
    &&& s + m <= total
    &&& total <= a.len()
    &&& total <= b.len()
    &&& forall|p: int| s <= p < s + m ==> differs(a, b, p)
    &&& s == 0 || !differs(a, b, s - 1)
    &&& s + m == total || !differs(a, b, s + m)
}

/// Where the bytes from `s` to `e` all differ and nothing lets a run start
/// earlier or end elsewhere, the runs of the two buffers hold exactly the
/// run from `s` to `e`. A run starts no earlier than `s` where `s` is the
/// first position, the start of a chunk, behind a byte that does not differ,
/// or the end of another run. It ends at `e` where that makes it `cap` bytes
/// long or where `e` is the end of the compared bytes, the end of a chunk,
/// or a byte that does not differ.
pub proof fn run_of_stretch(a: Seq<u8>, b: Seq<u8>, total: int, cap: nat, s: int, e: int) -> (k:
    int)
    requires
        0 <= s < e <= total,
        total <= a.len(),
        total <= b.len(),
        e - s <= cap,
        s / (CHUNK_SIZE as int) == (e - 1) / (CHUNK_SIZE as int),
        forall|p: int| s <= p < e ==> differs(a, b, p),
        s == 0 || s % (CHUNK_SIZE as int) == 0 || !differs(a, b, s - 1) || exists|j: int|
            0 <= j < buffer_runs_from(a, b, 0, total, cap).len() && (#[trigger] buffer_runs_from(
                a,
                b,
                0,
                total,
                cap,
            )[j]).end() == s,
        e - s == cap || e == total || e % (CHUNK_SIZE as int) == 0 || !differs(a, b, e),
    ensures
        0 <= k < buffer_runs_from(a, b, 0, total, cap).len(),
        buffer_runs_from(a, b, 0, total, cap)[k] == (Run {
            offset: s as nat,
            payload: b.subrange(s, e),
        }),
{
    let runs = buffer_runs_from(a, b, 0, total, cap);
    buffer_runs_are_ordered(a, b, 0, total, cap);
    buffer_runs_cover_differences(a, b, 0, total, cap, s);
    let k = choose|k: int| 0 <= k < runs.len() && (#[trigger] runs[k]).offset <= s < runs[k].end();
    let r = runs[k];
    assert(is_delta_run(a, b, 0, total, cap, r) && ends_late(a, b, total, cap, r));
    if r.offset < s {
        assert(differs(a, b, s - 1));
        let j = choose|j: int| 0 <= j < runs.len() && (#[trigger] runs[j]).end() == s;
        assert(is_delta_run(a, b, 0, total, cap, runs[j]));
        if j < k {
            assert(runs[j].end() <= runs[k].offset);
        } else if k < j {
            assert(runs[k].end() <= runs[j].offset);
        }
        assert(false);
    }
    if r.end() > e {
        assert(differs(a, b, e));
    }
    if r.end() < e {
        assert(differs(a, b, r.end() as int));
    }
    assert(r.payload =~= b.subrange(s, e));
    k
}

/// Two runs of which one ends where the other starts are neighbours in the
/// list of runs.
pub proof fn touching_runs_are_neighbours(
    a: Seq<u8>,
    b: Seq<u8>,
    total: int,
    cap: nat,
    j: int,
    k: int,
)
    requires
        0 <= total <= a.len(),
        total <= b.len(),
        0 <= j < buffer_runs_from(a, b, 0, total, cap).len(),
        0 <= k < buffer_runs_from(a, b, 0, total, cap).len(),
        buffer_runs_from(a, b, 0, total, cap)[j].end() == buffer_runs_from(
            a,
            b,
            0,
            total,
            cap,
        )[k].offset,
    ensures
        k == j + 1,
{
    let runs = buffer_runs_from(a, b, 0, total, cap);
    buffer_runs_are_ordered(a, b, 0, total, cap);
    assert(is_delta_run(a, b, 0, total, cap, runs[j]));
    assert(is_delta_run(a, b, 0, total, cap, runs[k]));
    if k < j {
        assert(runs[k].end() <= runs[j].offset);
    } else if k > j + 1 {
        assert(is_delta_run(a, b, 0, total, cap, runs[j + 1]));
        assert(runs[j].end() <= runs[j + 1].offset);
        assert(runs[j + 1].end() <= runs[k].offset);
    }
}

/// The run length boundary, lower side: a whole stretch of differing bytes
/// that lies in one chunk and is no longer than the layout's longest payload
/// is one run of the delta. In the plain layout that holds up to 255 bytes,
/// in the extended layout up to 254.
pub proof fn short_stretch_is_one_run(a: Seq<u8>, b: Seq<u8>, format: Format, s: int, m: int) -> (k:
    int)
    requires
        is_stretch(a, b, compared_len(a, b), s, m),
        m <= format.run_cap(),
        s / (CHUNK_SIZE as int) == (s + m - 1) / (CHUNK_SIZE as int),
    ensures
        0 <= k < delta_runs(a, b, format).len(),
        delta_runs(a, b, format)[k] == (Run { offset: s as nat, payload: b.subrange(s, s + m) }),
{
    run_of_stretch(a, b, compared_len(a, b), format.run_cap(), s, s + m)
}

/// The run length boundary, upper side: a whole stretch of differing bytes
/// that lies in one chunk and is longer than the layout's longest payload,
/// by that length at most, is two neighbouring runs of the delta: the first
/// has the longest payload, the second starts where the first ends and
/// carries the rest. So 256 differing bytes are runs of 255 bytes and 1 byte
/// in the plain layout, and 255 are runs of 254 and 1 in the extended one.
pub proof fn long_stretch_is_cut(a: Seq<u8>, b: Seq<u8>, format: Format, s: int, m: int) -> (k: int)
    requires
        is_stretch(a, b, compared_len(a, b), s, m),
        format.run_cap() < m <= 2 * format.run_cap(),
        s / (CHUNK_SIZE as int) == (s + m - 1) / (CHUNK_SIZE as int),
    ensures
        0 <= k,
        k + 1 < delta_runs(a, b, format).len(),
        delta_runs(a, b, format)[k] == (Run {
            offset: s as nat,
            payload: b.subrange(s, s + format.run_cap()),
        }),
        delta_runs(a, b, format)[k + 1] == (Run {
            offset: (s + format.run_cap()) as nat,
            payload: b.subrange(s + format.run_cap(), s + m),
        }),
{
    let total = compared_len(a, b);
    let cap = format.run_cap();
    let runs = delta_runs(a, b, format);
    let k = run_of_stretch(a, b, total, cap, s, s + cap);
    assert(runs[k].end() == s + cap);
    let next = run_of_stretch(a, b, total, cap, s + cap, s + m);
    touching_runs_are_neighbours(a, b, total, cap, k, next);
    k
}

/// The chunk boundary: a whole stretch of differing bytes that starts in
/// one chunk and ends in the next, with no more than the layout's longest
/// payload on either side of the chunk edge `c`, is two neighbouring runs of
/// the delta. The first ends at the edge and the second starts there, so
/// their ranges join and their payloads, one after the other, are the
/// target's bytes over the stretch.
pub proof fn chunk_edge_cuts_stretch(
    a: Seq<u8>,
    b: Seq<u8>,
    format: Format,
    s: int,
    m: int,
    c: int,
) -> (k: int)
    requires
        is_stretch(a, b, compared_len(a, b), s, m),
        s < c < s + m,
        c % (CHUNK_SIZE as int) == 0,
        c - s <= format.run_cap(),
        s + m - c <= format.run_cap(),
    ensures
        0 <= k,
        k + 1 < delta_runs(a, b, format).len(),
        delta_runs(a, b, format)[k] == (Run { offset: s as nat, payload: b.subrange(s, c) }),
        delta_runs(a, b, format)[k + 1] == (Run { offset: c as nat, payload: b.subrange(c, s + m) }),
        delta_runs(a, b, format)[k].payload + delta_runs(a, b, format)[k + 1].payload
            == b.subrange(s, s + m),
{
    let total = compared_len(a, b);
    let cap = format.run_cap();
    let runs = delta_runs(a, b, format);
    let k = run_of_stretch(a, b, total, cap, s, c);
    let next = run_of_stretch(a, b, total, cap, c, s + m);
    touching_runs_are_neighbours(a, b, total, cap, k, next);
    assert(b.subrange(s, c) + b.subrange(c, s + m) =~= b.subrange(s, s + m));
    k
}

/// Identity: a buffer compared with itself gives no runs. Its plain delta is
/// empty, and its extended delta is the header alone, without a trailing
/// extension.
pub proof fn same_buffer_has_no_runs(a: Seq<u8>, format: Format)
    ensures
        delta_runs(a, a, format) == Seq::<Run>::empty(),
        delta_bytes(a, a, Format::Plain) == Seq::<u8>::empty(),
        delta_bytes(a, a, Format::Extended) == header_bytes(
            Header { version: FORMAT_VERSION, declared_size: a.len() as u64 },
        ),
{
    equal_bytes_have_no_runs(a, a, 0, a.len() as int, Format::Plain.run_cap());
    equal_bytes_have_no_runs(a, a, 0, a.len() as int, Format::Extended.run_cap());
    assert(runs_bytes(Seq::<Run>::empty()) =~= Seq::<u8>::empty());
    assert(delta_bytes(a, a, Format::Extended) =~= header_bytes(
        Header { version: FORMAT_VERSION, declared_size: a.len() as u64 },
    ));
}

/// Buffers that do not differ among the compared bytes from `offset` on
/// have no runs there.
pub proof fn equal_bytes_have_no_runs(a: Seq<u8>, b: Seq<u8>, offset: int, total: int, cap: nat)
    requires
        0 <= offset,
        total <= a.len(),
        total <= b.len(),
        forall|p: int| offset <= p < total ==> !differs(a, b, p),
    ensures
        buffer_runs_from(a, b, offset, total, cap) == Seq::<Run>::empty(),
    decreases total - offset,
{
    if offset < total {
        let n = window_len(offset, total);
        let wa = a.subrange(offset, offset + n);
        let wb = b.subrange(offset, offset + n);
        assert forall|p: int| 0 <= p implies !differs(wa, wb, p) by {
            if p < n {
                assert(!differs(a, b, offset + p));
            }
        }
        no_difference_no_runs(wa, wb, 0, offset as nat, cap);
        equal_bytes_have_no_runs(a, b, offset + n, total, cap);
    }
}

} // verus!
