//! The run encoder: finding the runs of differing bytes in a pair of windows.

use vstd::prelude::*;

use crate::format::Format;
use crate::record::{DiffRecord, Run};

verus! {

/// Whether both windows have a byte at position `i` and the two bytes differ.
pub open spec fn differs(a: Seq<u8>, b: Seq<u8>, i: int) -> bool {
    0 <= i < a.len() && i < b.len() && a[i] != b[i]
}

/// The number of consecutive differing positions from `i` on, counted up to
/// `room`.
pub open spec fn run_len(a: Seq<u8>, b: Seq<u8>, i: int, room: nat) -> nat
    decreases room,
{
    if room > 0 && differs(a, b, i) {
        1 + run_len(a, b, i + 1, (room - 1) as nat)
    } else {
        0
    }
}

/// The runs of the windows `a` and `b` from position `i` on, left to right.
/// A run starts at the first differing position and goes on while the bytes
/// differ, for at most `cap` bytes; the next run is looked for behind it. The
/// windows start at position `base` of their buffers.
pub open spec fn runs_from(a: Seq<u8>, b: Seq<u8>, i: int, base: nat, cap: nat) -> Seq<Run>
    decreases a.len() - i,
    via runs_from_terminates
{
    if i < 0 || i >= a.len() || i >= b.len() || cap == 0 {
        Seq::empty()
    } else if a[i] == b[i] {
        runs_from(a, b, i + 1, base, cap)
    } else {
        let n = run_len(a, b, i, cap);
        seq![Run { offset: (base + i) as nat, payload: b.subrange(i, i + n) }] + runs_from(
            a,
            b,
            i + n,
            base,
            cap,
        )
    }
}

#[via_fn]
proof fn runs_from_terminates(a: Seq<u8>, b: Seq<u8>, i: int, base: nat, cap: nat) {
    run_len_bounds(a, b, i, cap);
}

/// The runs of a pair of windows that start at position `base`.
pub open spec fn window_runs(a: Seq<u8>, b: Seq<u8>, base: nat, cap: nat) -> Seq<Run> {
    runs_from(a, b, 0, base, cap)
}

/// The runs that a list of records stands for.
pub open spec fn runs_of(records: Seq<DiffRecord>) -> Seq<Run> {
    records.map_values(|r: DiffRecord| r@)
}

/// Finds the runs of differing bytes in two windows of equal length that
/// start at position `base` of their buffers, and returns one record for
/// each, in the order of their positions.
pub fn scan_window(a: &[u8], b: &[u8], base: u64, format: Format) -> (records: Vec<DiffRecord>)
    requires
        a@.len() == b@.len(),
        base + a@.len() <= u64::MAX,
    ensures
        runs_of(records@) == window_runs(a@, b@, base as nat, format.run_cap()),
        records@.len() <= a@.len(),
        forall|k: int| 0 <= k < records@.len() ==> (#[trigger] records@[k])@.fits(format),
{
    let n: usize = a.len();
    let cap: usize = format.max_run();
    let mut records: Vec<DiffRecord> = Vec::new();
    let mut i: usize = 0;
    assert(runs_of(records@) =~= Seq::<Run>::empty());
    while i < n
        invariant
            i <= n,
            n == a@.len(),
            n == b@.len(),
            base + n <= u64::MAX,
            cap == format.run_cap(),
            1 <= cap <= 255,
            runs_of(records@) + runs_from(a@, b@, i as int, base as nat, cap as nat)
                == window_runs(a@, b@, base as nat, cap as nat),
        decreases n - i,
    {
        if a[i] != b[i] {
            let start: usize = i;
            let ghost before = runs_of(records@);
            let mut payload: Vec<u8> = Vec::new();
            while i < n && a[i] != b[i] && payload.len() < cap
                invariant
                    start <= i <= n,
                    n == a@.len(),
                    n == b@.len(),
                    payload@ == b@.subrange(start as int, i as int),
                    i - start <= cap,
                    run_len(a@, b@, start as int, cap as nat) == (i - start) + run_len(
                        a@,
                        b@,
                        i as int,
                        (cap - (i - start)) as nat,
                    ),
                decreases n - i,
            {
                payload.push(b[i]);
                i += 1;
                assert(payload@ =~= b@.subrange(start as int, i as int));
            }
            let record = DiffRecord { offset: base + start as u64, payload };
            records.push(record);
            assert(runs_of(records@) =~= before + seq![record@]);
        } else {
            i += 1;
        }
    }
    assert(runs_of(records@) + Seq::<Run>::empty() =~= runs_of(records@));
    proof {
        runs_are_ordered(a@, b@, 0, base as nat, cap as nat);
        assert forall|k: int| 0 <= k < records@.len() implies (#[trigger] records@[k])@.fits(
            format,
        ) by {
            assert(runs_of(records@)[k] == records@[k]@);
        }
    }
    records
}

/// A run is no longer than the room it was given, stays inside both windows,
/// and is not empty where it starts on a differing position.
pub proof fn run_len_bounds(a: Seq<u8>, b: Seq<u8>, i: int, room: nat)
    ensures
        run_len(a, b, i, room) <= room,
        0 <= i <= a.len() ==> i + run_len(a, b, i, room) <= a.len(),
        0 <= i <= b.len() ==> i + run_len(a, b, i, room) <= b.len(),
        room > 0 && differs(a, b, i) ==> run_len(a, b, i, room) >= 1,
    decreases room,
{
    if room > 0 && differs(a, b, i) {
        run_len_bounds(a, b, i + 1, (room - 1) as nat);
    }
}

/// Every position that a run counts holds differing bytes.
pub proof fn run_differs(a: Seq<u8>, b: Seq<u8>, i: int, room: nat)
    ensures
        forall|p: int| i <= p < i + run_len(a, b, i, room) ==> differs(a, b, p),
    decreases room,
{
    if room > 0 && differs(a, b, i) {
        run_differs(a, b, i + 1, (room - 1) as nat);
    }
}

/// Whether every position of the run `r` lies in the windows that start at
/// `base`, at or behind position `i`, and holds differing bytes there, of
/// which `r` carries those of `b`.
pub open spec fn covers_differences(a: Seq<u8>, b: Seq<u8>, i: int, base: nat, r: Run) -> bool {
    &&& base + i <= r.offset
    &&& r.end() <= base + a.len()
    &&& r.end() <= base + b.len()
    &&& r.payload == b.subrange(r.offset - base, r.end() - base)
    &&& forall|p: int| r.offset - base <= p < r.end() - base ==> differs(a, b, p)
}

/// What holds of the runs of a pair of windows: each is 1 to `cap` bytes
/// long, lies inside the windows, covers differing positions only and
/// carries the bytes of `b` at them; and the runs come in the order of their
/// positions, none reaching into the next.
pub proof fn runs_are_ordered(a: Seq<u8>, b: Seq<u8>, i: int, base: nat, cap: nat)
    requires
        0 <= i,
    ensures
        runs_from(a, b, i, base, cap).len() <= if i <= a.len() { a.len() - i } else { 0 },
        forall|k: int|
            #![trigger runs_from(a, b, i, base, cap)[k]]
            0 <= k < runs_from(a, b, i, base, cap).len() ==> {
                let r = runs_from(a, b, i, base, cap)[k];
                1 <= r.payload.len() <= cap && covers_differences(a, b, i, base, r)
            },
        forall|j: int, k: int|
            #![trigger runs_from(a, b, i, base, cap)[j], runs_from(a, b, i, base, cap)[k]]
            0 <= j < k < runs_from(a, b, i, base, cap).len() ==> runs_from(a, b, i, base, cap)[j].end()
                <= runs_from(a, b, i, base, cap)[k].offset,
    decreases a.len() - i,
{
    let runs = runs_from(a, b, i, base, cap);
    if i >= a.len() || i >= b.len() || cap == 0 {
    } else if a[i] == b[i] {
        runs_are_ordered(a, b, i + 1, base, cap);
    } else {
        let n = run_len(a, b, i, cap);
        run_len_bounds(a, b, i, cap);
        run_differs(a, b, i, cap);
        let first = Run { offset: (base + i) as nat, payload: b.subrange(i, i + n) };
        let rest = runs_from(a, b, i + n, base, cap);
        runs_are_ordered(a, b, i + n, base, cap);
        assert(runs == seq![first] + rest);
        assert forall|k: int| 0 <= k < runs.len() implies {
            let r = #[trigger] runs[k];
            1 <= r.payload.len() <= cap && covers_differences(a, b, i, base, r)
        } by {
            if k > 0 {
                assert(runs[k] == rest[k - 1]);
            }
        }
        assert forall|j: int, k: int| 0 <= j < k < runs.len() implies (#[trigger] runs[j]).end()
            <= (#[trigger] runs[k]).offset by {
            assert(runs[k] == rest[k - 1]);
            if j > 0 {
                assert(runs[j] == rest[j - 1]);
            }
        }
    }
}

/// A stretch of differing bytes that fits the room is counted whole where a
/// byte that does not differ, or the end of a window, follows it; a longer
/// one is counted up to the room.
pub proof fn run_len_of_stretch(a: Seq<u8>, b: Seq<u8>, i: int, m: nat, room: nat)
    requires
        forall|p: int| i <= p < i + m ==> differs(a, b, p),
    ensures
        m >= room ==> run_len(a, b, i, room) == room,
        m < room ==> run_len(a, b, i, room) >= m,
        m < room && !differs(a, b, i + m) ==> run_len(a, b, i, room) == m,
    decreases room,
{
    if room > 0 && m > 0 {
        run_len_of_stretch(a, b, i + 1, (m - 1) as nat, (room - 1) as nat);
    }
}

/// Windows that do not differ from position `i` on have no runs there.
pub proof fn no_difference_no_runs(a: Seq<u8>, b: Seq<u8>, i: int, base: nat, cap: nat)
    requires
        forall|p: int| i <= p ==> !differs(a, b, p),
    ensures
        runs_from(a, b, i, base, cap) == Seq::<Run>::empty(),
    decreases a.len() - i,
{
    if !(i < 0 || i >= a.len() || i >= b.len() || cap == 0) {
        assert(!differs(a, b, i));
        no_difference_no_runs(a, b, i + 1, base, cap);
    }
}

/// Positions that do not differ are passed over: the runs from `i` on are
/// those from `s` on where nothing differs in between.
pub proof fn equal_bytes_are_skipped(a: Seq<u8>, b: Seq<u8>, i: int, s: int, base: nat, cap: nat)
    requires
        0 <= i <= s,
        s <= a.len(),
        s <= b.len(),
        forall|p: int| i <= p < s ==> !differs(a, b, p),
    ensures
        runs_from(a, b, i, base, cap) == runs_from(a, b, s, base, cap),
    decreases s - i,
{
    if i < s {
        assert(!differs(a, b, i));
        equal_bytes_are_skipped(a, b, i + 1, s, base, cap);
    }
}

/// The run length boundary. A stretch of `m` differing bytes from position
/// `s` on, with a byte that does not differ or the end of a window behind
/// it, gives one run where `m` is at most `cap`, and two adjacent runs, the
/// first of `cap` bytes, where `m` is more than `cap` and at most twice
/// `cap`. The next run, if any, starts further on.
pub proof fn stretch_runs(a: Seq<u8>, b: Seq<u8>, s: int, m: nat, base: nat, cap: nat)
    requires
        0 <= s,
        1 <= m,
        1 <= cap,
        forall|p: int| s <= p < s + m ==> differs(a, b, p),
        !differs(a, b, s + m),
    ensures
        m <= cap ==> runs_from(a, b, s, base, cap) == seq![
            Run { offset: (base + s) as nat, payload: b.subrange(s, s + m) },
        ] + runs_from(a, b, s + m + 1, base, cap),
        cap < m <= 2 * cap ==> runs_from(a, b, s, base, cap) == seq![
            Run { offset: (base + s) as nat, payload: b.subrange(s, s + cap) },
            Run { offset: (base + s + cap) as nat, payload: b.subrange(s + cap, s + m) },
        ] + runs_from(a, b, s + m + 1, base, cap),
{
    assert(differs(a, b, s));
    assert(differs(a, b, s + m - 1));
    let behind = runs_from(a, b, s + m + 1, base, cap);
    assert(runs_from(a, b, s + m, base, cap) == behind);
    if m <= cap {
        run_len_of_stretch(a, b, s, m, cap);
    } else if m <= 2 * cap {
        run_len_of_stretch(a, b, s, m, cap);
        let rest = (m - cap) as nat;
        assert(differs(a, b, s + cap));
        assert forall|p: int| s + cap <= p < s + cap + rest implies differs(a, b, p) by {}
        run_len_of_stretch(a, b, s + cap, rest, cap);
        let first = Run { offset: (base + s) as nat, payload: b.subrange(s, s + cap) };
        let second = Run { offset: (base + s + cap) as nat, payload: b.subrange(s + cap, s + m) };
        assert(runs_from(a, b, s + cap, base, cap) == seq![second] + behind);
        assert(seq![first] + (seq![second] + behind) =~= seq![first, second] + behind);
    }
}

/// The run length boundary for windows that differ in one stretch only,
/// the `m` bytes from position `s` on: they have one run where `m` is at
/// most `cap`, and two adjacent runs, the first of `cap` bytes, where `m` is
/// more than `cap` and at most twice `cap`.
pub proof fn lone_stretch_runs(a: Seq<u8>, b: Seq<u8>, s: int, m: nat, base: nat, cap: nat)
    requires
        0 <= s,
        1 <= m,
        1 <= cap,
        s + m <= a.len(),
        s + m <= b.len(),
        forall|p: int| differs(a, b, p) <==> s <= p < s + m,
    ensures
        m <= cap ==> window_runs(a, b, base, cap) == seq![
            Run { offset: (base + s) as nat, payload: b.subrange(s, s + m) },
        ],
        cap < m <= 2 * cap ==> window_runs(a, b, base, cap) == seq![
            Run { offset: (base + s) as nat, payload: b.subrange(s, s + cap) },
            Run { offset: (base + s + cap) as nat, payload: b.subrange(s + cap, s + m) },
        ],
{
    equal_bytes_are_skipped(a, b, 0, s, base, cap);
    stretch_runs(a, b, s, m, base, cap);
    no_difference_no_runs(a, b, s + m + 1, base, cap);
    let behind = runs_from(a, b, s + m + 1, base, cap);
    if m <= cap {
        let one = seq![Run { offset: (base + s) as nat, payload: b.subrange(s, s + m) }];
        assert(one + behind =~= one);
    } else if m <= 2 * cap {
        let two = seq![
            Run { offset: (base + s) as nat, payload: b.subrange(s, s + cap) },
            Run { offset: (base + s + cap) as nat, payload: b.subrange(s + cap, s + m) },
        ];
        assert(two + behind =~= two);
    }
}

/// The runs of a pair of windows cover every differing position from `i`
/// on.
pub proof fn runs_cover_differences(a: Seq<u8>, b: Seq<u8>, i: int, base: nat, cap: nat, p: int)
    requires
        0 <= i <= p,
        1 <= cap,
        differs(a, b, p),
    ensures
        exists|k: int|
            0 <= k < runs_from(a, b, i, base, cap).len() && (#[trigger] runs_from(
                a,
                b,
                i,
                base,
                cap,
            )[k]).offset <= base + p < runs_from(a, b, i, base, cap)[k].end(),
    decreases a.len() - i,
{
    let runs = runs_from(a, b, i, base, cap);
    if a[i] == b[i] {
        runs_cover_differences(a, b, i + 1, base, cap, p);
    } else {
        let n = run_len(a, b, i, cap);
        run_len_bounds(a, b, i, cap);
        let rest = runs_from(a, b, i + n, base, cap);
        if p < i + n {
            assert(runs[0].offset <= base + p < runs[0].end());
        } else {
            runs_cover_differences(a, b, i + n, base, cap, p);
            let k = choose|k: int|
                0 <= k < rest.len() && (#[trigger] rest[k]).offset <= base + p < rest[k].end();
            assert(runs[k + 1] == rest[k]);
        }
    }
}

/// Every run is as long as it can be: it has `cap` bytes, or a byte that
/// does not differ, or the end of a window, stands behind it. And it starts
/// as early as it can: at position `i`, or behind a byte that does not
/// differ, or right behind a run of `cap` bytes.
pub proof fn runs_are_maximal(a: Seq<u8>, b: Seq<u8>, i: int, base: nat, cap: nat)
    requires
        0 <= i,
    ensures
        forall|k: int|
            #![trigger runs_from(a, b, i, base, cap)[k]]
            0 <= k < runs_from(a, b, i, base, cap).len() ==> {
                let runs = runs_from(a, b, i, base, cap);
                &&& runs[k].payload.len() == cap || !differs(a, b, runs[k].end() - base)
                &&& {
                    ||| runs[k].offset == base + i
                    ||| !differs(a, b, runs[k].offset - base - 1)
                    ||| k > 0 && runs[k - 1].end() == runs[k].offset && runs[k - 1].payload.len()
                        == cap
                }
            },
    decreases a.len() - i,
{
    let runs = runs_from(a, b, i, base, cap);
    if i >= a.len() || i >= b.len() || cap == 0 {
    } else if a[i] == b[i] {
        runs_are_maximal(a, b, i + 1, base, cap);
        runs_are_ordered(a, b, i + 1, base, cap);
        assert forall|k: int| 0 <= k < runs.len() implies {
            &&& (#[trigger] runs[k]).payload.len() == cap || !differs(a, b, runs[k].end() - base)
            &&& {
                ||| runs[k].offset == base + i
                ||| !differs(a, b, runs[k].offset - base - 1)
                ||| k > 0 && runs[k - 1].end() == runs[k].offset && runs[k - 1].payload.len() == cap
            }
        } by {
            if runs[k].offset == base + i + 1 {
                assert(!differs(a, b, i));
            }
        }
    } else {
        let n = run_len(a, b, i, cap);
        run_len_bounds(a, b, i, cap);
        run_differs(a, b, i, cap);
        if n < cap {
            if differs(a, b, i + n) {
                assert forall|p: int| i <= p < i + (n + 1) implies differs(a, b, p) by {}
                run_len_of_stretch(a, b, i, n + 1, cap);
            }
        }
        let rest = runs_from(a, b, i + n, base, cap);
        runs_are_maximal(a, b, i + n, base, cap);
        runs_are_ordered(a, b, i + n, base, cap);
        assert(runs == seq![runs[0]] + rest);
        assert forall|k: int| 0 <= k < runs.len() implies {
            &&& (#[trigger] runs[k]).payload.len() == cap || !differs(a, b, runs[k].end() - base)
            &&& {
                ||| runs[k].offset == base + i
                ||| !differs(a, b, runs[k].offset - base - 1)
                ||| k > 0 && runs[k - 1].end() == runs[k].offset && runs[k - 1].payload.len() == cap
            }
        } by {
            if k > 0 {
                assert(runs[k] == rest[k - 1]);
                assert(covers_differences(a, b, i + n, base, rest[k - 1]));
                assert(differs(a, b, rest[k - 1].offset - base));
                if k > 1 {
                    assert(runs[k - 1] == rest[k - 2]);
                    assert(rest[0].end() <= rest[k - 1].offset);
                }
            }
        }
    }
}

} // verus!
