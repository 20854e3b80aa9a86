//! The encoder: from a base and a target buffer to the bytes of a delta.

use vstd::bytes::*;
use vstd::prelude::*;
use vstd::slice::*;

use crate::format::{header_bytes, Format, Header, CHUNK_SIZE, EXTENSION_MARKER, FORMAT_VERSION};
use crate::record::{runs_bytes, runs_bytes_concat, runs_bytes_push, Run};
use crate::scan::{runs_of, scan_window, window_runs};

verus! {

/// Why no delta was made.
#[derive(Clone, Copy, Debug, PartialEq, Eq, Structural)]
pub enum EncodeError {
    /// The extended layout can lengthen the base, not shorten it, and the
    /// base is the longer buffer.
    BaseLongerThanTarget { base_len: u64, target_len: u64 },
}

/// What an encoder has to read and write for two buffers of given lengths.
#[derive(Clone, Copy, Debug, PartialEq, Eq, Structural)]
pub struct ComparePlan {
    /// The header to write first, where the layout has one.
    pub header: Option<Header>,
    /// How many bytes, from the start of both buffers, are compared.
    pub compared: u64,
    /// How many bytes of the target, behind the compared ones, are stored
    /// as they are in a trailing extension. Zero means no extension.
    pub extension: u64,
}

/// The plan for buffers of the lengths `base_len` and `target_len`. The plain
/// layout compares the common prefix and stores nothing else. The extended
/// layout refuses a base longer than the target; otherwise it compares the
/// base's length and stores the rest of the target.
pub open spec fn plan_for(base_len: u64, target_len: u64, format: Format) -> Result<
    ComparePlan,
    EncodeError,
> {
    match format {
        Format::Plain => Ok(
            ComparePlan {
                header: None,
                compared: if base_len <= target_len {
                    base_len
                } else {
                    target_len
                },
                extension: 0,
            },
        ),
        Format::Extended => if base_len > target_len {
            Err(EncodeError::BaseLongerThanTarget { base_len, target_len })
        } else {
            Ok(
                ComparePlan {
                    header: Some(Header { version: FORMAT_VERSION, declared_size: target_len }),
                    compared: base_len,
                    extension: (target_len - base_len) as u64,
                },
            )
        },
    }
}

/// The length of the window that starts at `offset` when `total` bytes are
/// compared: a full chunk, or what is left.
pub open spec fn window_len(offset: int, total: int) -> int {
    if total - offset < CHUNK_SIZE {
        total - offset
    } else {
        CHUNK_SIZE as int
    }
}

/// The runs of the first `total` bytes of `a` and `b` from position `offset`
/// on, found window by window. A stretch of differing bytes that crosses
/// from one window into the next is cut there.
pub open spec fn buffer_runs_from(a: Seq<u8>, b: Seq<u8>, offset: int, total: int, cap: nat) -> Seq<
    Run,
>
    decreases total - offset,
{
    if offset < 0 || offset >= total {
        Seq::empty()
    } else {
        let n = window_len(offset, total);
        window_runs(
            a.subrange(offset, offset + n),
            b.subrange(offset, offset + n),
            offset as nat,
            cap,
        ) + buffer_runs_from(a, b, offset + n, total, cap)
    }
}

/// The number of bytes compared: the length of the shorter buffer.
pub open spec fn compared_len(a: Seq<u8>, b: Seq<u8>) -> int {
    if a.len() <= b.len() {
        a.len() as int
    } else {
        b.len() as int
    }
}

/// The runs that the delta from `a` to `b` holds.
pub open spec fn delta_runs(a: Seq<u8>, b: Seq<u8>, format: Format) -> Seq<Run> {
    buffer_runs_from(a, b, 0, compared_len(a, b), format.run_cap())
}

/// A trailing extension on the wire: the position where the tail starts as
/// eight little-endian bytes, the marker byte, then the tail to the end of the
/// delta.
pub open spec fn extension_bytes(offset: nat, tail: Seq<u8>) -> Seq<u8> {
    spec_u64_to_le_bytes(offset as u64) + seq![EXTENSION_MARKER] + tail
}

/// The delta from `a` to `b` in the layout `format`. For the extended layout
/// it is meant for a base no longer than the target.
pub open spec fn delta_bytes(a: Seq<u8>, b: Seq<u8>, format: Format) -> Seq<u8> {
    match format {
        Format::Plain => runs_bytes(delta_runs(a, b, format)),
        Format::Extended => header_bytes(
            Header { version: FORMAT_VERSION, declared_size: b.len() as u64 },
        ) + runs_bytes(delta_runs(a, b, format)) + if b.len() > a.len() {
            extension_bytes(a.len(), b.skip(a.len() as int))
        } else {
            Seq::empty()
        },
    }
}

/// A finished delta.
#[derive(Debug)]
pub struct Delta {
    /// The delta on the wire.
    pub bytes: Vec<u8>,
    /// The number of diff records in it. A trailing extension is not
    /// counted.
    pub records: u64,
}

/// Decides what to compare and what to store for buffers of the given
/// lengths.
pub fn plan_compare(base_len: u64, target_len: u64, format: Format) -> (plan: Result<
    ComparePlan,
    EncodeError,
>)
    ensures
        plan == plan_for(base_len, target_len, format),
{
    match format {
        Format::Plain => {
            let compared: u64 = if base_len <= target_len {
                base_len
            } else {
                target_len
            };
            Ok(ComparePlan { header: None, compared, extension: 0 })
        },
        Format::Extended => {
            if base_len > target_len {
                Err(EncodeError::BaseLongerThanTarget { base_len, target_len })
            } else {
                Ok(
                    ComparePlan {
                        header: Some(Header { version: FORMAT_VERSION, declared_size: target_len }),
                        compared: base_len,
                        extension: target_len - base_len,
                    },
                )
            }
        },
    }
}

/// The number of bytes to read from each buffer for the window that starts
/// at `offset`, when `total` bytes are compared in all. Zero means that the
/// comparison is over.
pub fn next_window_len(offset: u64, total: u64) -> (n: usize)
    requires
        offset <= total,
    ensures
        n == window_len(offset as int, total as int),
{
    if total - offset < CHUNK_SIZE as u64 {
        (total - offset) as usize
    } else {
        CHUNK_SIZE
    }
}

/// Compares two windows of equal length that start at position `base` of
/// their buffers and appends one record for each run of differing bytes to
/// `out`. Returns the number of records written.
pub fn encode_window(a: &[u8], b: &[u8], base: u64, format: Format, out: &mut Vec<u8>) -> (count:
    usize)
    requires
        a@.len() == b@.len(),
        base + a@.len() <= u64::MAX,
    ensures
        final(out)@ == old(out)@ + runs_bytes(
            window_runs(a@, b@, base as nat, format.run_cap()),
        ),
        count == window_runs(a@, b@, base as nat, format.run_cap()).len(),
        count <= a@.len(),
{
    let records = scan_window(a, b, base, format);
    let ghost runs = runs_of(records@);
    let mut k: usize = 0;
    assert(runs.take(0) =~= Seq::<Run>::empty());
    while k < records.len()
        invariant
            k <= records.len(),
            runs == runs_of(records@),
            forall|j: int| 0 <= j < records@.len() ==> (#[trigger] records@[j])@.fits(format),
            out@ == old(out)@ + runs_bytes(runs.take(k as int)),
        decreases records.len() - k,
    {
        assert(runs[k as int] == records[k as int]@);
        records[k].write_to(out);
        proof {
            runs_bytes_push(runs.take(k as int), runs[k as int]);
            assert(runs.take(k + 1) =~= runs.take(k as int).push(runs[k as int]));
        }
        k += 1;
    }
    assert(runs.take(runs.len() as int) =~= runs);
    records.len()
}

/// Appends a trailing extension to `out`: `tail` is the part of the target
/// from position `offset` on.
pub fn write_extension(offset: u64, tail: &[u8], out: &mut Vec<u8>)
    ensures
        final(out)@ == old(out)@ + extension_bytes(offset as nat, tail@),
{
    let start = u64_to_le_bytes(offset);
    let mut i: usize = 0;
    while i < 8
        invariant
            i <= 8,
            start@.len() == 8,
            out@ == old(out)@ + start@.take(i as int),
        decreases 8 - i,
    {
        out.push(start[i]);
        i += 1;
    }
    assert(start@.take(8) =~= start@);
    out.push(EXTENSION_MARKER);
    let ghost prefix = out@;
    let mut j: usize = 0;
    while j < tail.len()
        invariant
            j <= tail@.len(),
            out@ == prefix + tail@.take(j as int),
        decreases tail@.len() - j,
    {
        out.push(tail[j]);
        j += 1;
    }
    assert(tail@.take(tail@.len() as int) =~= tail@);
    assert(out@ =~= old(out)@ + extension_bytes(offset as nat, tail@));
}

/// Makes the delta that turns `base` into `target`.
///
/// The delta is a function of the two buffers and the layout: the same
/// input gives the same bytes. The extended layout refuses a base that is
/// longer than the target, and nothing else is refused.
pub fn encode(base: &[u8], target: &[u8], format: Format) -> (r: Result<Delta, EncodeError>)
    ensures
        match r {
            Ok(delta) => {
                &&& !(format == Format::Extended && base@.len() > target@.len())
                &&& delta.bytes@ == delta_bytes(base@, target@, format)
                &&& delta.records == delta_runs(base@, target@, format).len()
            },
            Err(e) => {
                &&& format == Format::Extended
                &&& base@.len() > target@.len()
                &&& e == EncodeError::BaseLongerThanTarget {
                    base_len: base@.len() as u64,
                    target_len: target@.len() as u64,
                }
            },
        },
{
    let plan = match plan_compare(base.len() as u64, target.len() as u64, format) {
        Ok(plan) => plan,
        Err(e) => {
            return Err(e);
        },
    };
    let mut out: Vec<u8> = Vec::new();
    match plan.header {
        Some(header) => {
            header.write_to(&mut out);
        },
        None => {},
    }
    let ghost head = out@;
    let ghost all = delta_runs(base@, target@, format);
    let total: usize = plan.compared as usize;
    let mut offset: usize = 0;
    let mut records: u64 = 0;
    while offset < total
        invariant
            offset <= total,
            total == compared_len(base@, target@),
            all == delta_runs(base@, target@, format),
            records <= offset,
            out@ + runs_bytes(
                buffer_runs_from(base@, target@, offset as int, total as int, format.run_cap()),
            ) == head + runs_bytes(all),
            records + buffer_runs_from(
                base@,
                target@,
                offset as int,
                total as int,
                format.run_cap(),
            ).len() == all.len(),
        decreases total - offset,
    {
        let n: usize = next_window_len(offset as u64, total as u64);
        let ghost window = window_runs(
            base@.subrange(offset as int, offset + n),
            target@.subrange(offset as int, offset + n),
            offset as nat,
            format.run_cap(),
        );
        let ghost rest = buffer_runs_from(
            base@,
            target@,
            offset + n,
            total as int,
            format.run_cap(),
        );
        let ghost before = out@;
        let count: usize = encode_window(
            slice_subrange(base, offset, offset + n),
            slice_subrange(target, offset, offset + n),
            offset as u64,
            format,
            &mut out,
        );
        proof {
            runs_bytes_concat(window, rest);
            assert(out@ + runs_bytes(rest) =~= before + (runs_bytes(window) + runs_bytes(rest)));
        }
        records += count as u64;
        offset += n;
    }
    assert(runs_bytes(Seq::<Run>::empty()) =~= Seq::<u8>::empty());
    assert(out@ =~= head + runs_bytes(all));
    if plan.extension > 0 {
        write_extension(total as u64, slice_subrange(target, total, target.len()), &mut out);
        assert(target@.subrange(total as int, target@.len() as int) =~= target@.skip(
            total as int,
        ));
    }
    assert(out@ =~= delta_bytes(base@, target@, format));
    Ok(Delta { bytes: out, records })
}

} // verus!
