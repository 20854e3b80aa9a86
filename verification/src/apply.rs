//! The patch applier: replaying a delta on a base buffer.

use vstd::bytes::*;
use vstd::prelude::*;
use vstd::slice::*;

use crate::format::{
    parse_header, Format, Header, HeaderError, EXTENSION_MARKER, HEADER_LEN, RECORD_PREFIX_LEN,
};
use crate::record::{DiffRecord, Run};

verus! {

/// The buffer `buf` with the bytes of `payload` written over it from position
/// `offset` on. The buffer keeps its length: the part of the payload that
/// would fall at or behind its end is left out.
pub open spec fn patch(buf: Seq<u8>, offset: int, payload: Seq<u8>) -> Seq<u8> {
    Seq::new(
        buf.len(),
        |i: int|
            if offset <= i < offset + payload.len() {
                payload[i - offset]
            } else {
                buf[i]
            },
    )
}

/// Tolerance: a payload that reaches over the end of the buffer is applied
/// as far as the buffer goes, as if the rest of it were not there, and one
/// that starts at or behind the end changes nothing. The buffer keeps its
/// length either way.
pub proof fn patch_stays_in_bounds(buf: Seq<u8>, offset: nat, payload: Seq<u8>)
    ensures
        patch(buf, offset as int, payload).len() == buf.len(),
        offset >= buf.len() ==> patch(buf, offset as int, payload) == buf,
        offset <= buf.len() <= offset + payload.len() ==> patch(buf, offset as int, payload)
            == patch(buf, offset as int, payload.take(buf.len() - offset)),
        offset + payload.len() <= buf.len() ==> patch(buf, offset as int, payload) == buf.take(
            offset as int,
        ) + payload + buf.skip((offset + payload.len()) as int),
{
    let patched = patch(buf, offset as int, payload);
    if offset >= buf.len() {
        assert(patched =~= buf);
    }
    if offset <= buf.len() <= offset + payload.len() {
        assert(patched =~= patch(buf, offset as int, payload.take(buf.len() - offset)));
    }
    if offset + payload.len() <= buf.len() {
        assert(patched =~= buf.take(offset as int) + payload + buf.skip(
            (offset + payload.len()) as int,
        ));
    }
}

/// The buffer after the runs of `runs` were written over it, first to last.
pub open spec fn patch_all(buf: Seq<u8>, runs: Seq<Run>) -> Seq<u8>
    decreases runs.len(),
{
    if runs.len() == 0 {
        buf
    } else {
        patch_all(patch(buf, runs[0].offset as int, runs[0].payload), runs.drop_first())
    }
}

/// What stands at the front of a stream of records.
#[derive(Debug)]
pub enum Step {
    /// Nothing: the stream is used up.
    End,
    /// Less than a whole record: the stream breaks off inside the offset, in
    /// front of the length byte, or inside the payload.
    Truncated,
    /// The marker of the trailing extension. All bytes behind the length
    /// byte are the tail to append.
    Extension { offset: u64 },
    /// A whole record.
    Record { record: DiffRecord },
}

/// The mathematical content of a [`Step`].
pub enum StepView {
    End,
    Truncated,
    Extension { offset: nat },
    Record { run: Run },
}

impl View for Step {
    type V = StepView;

    open spec fn view(&self) -> StepView {
        match self {
            Step::End => StepView::End,
            Step::Truncated => StepView::Truncated,
            Step::Extension { offset } => StepView::Extension { offset: *offset as nat },
            Step::Record { record } => StepView::Record { run: record@ },
        }
    }
}

/// What stands at the front of the stream `s`. Only the extended layout
/// knows the extension marker; in the plain layout the same byte announces a
/// payload of 255 bytes.
pub open spec fn first_step(s: Seq<u8>, format: Format) -> StepView {
    if s.len() == 0 {
        StepView::End
    } else if s.len() < RECORD_PREFIX_LEN {
        StepView::Truncated
    } else {
        let offset = spec_u64_from_le_bytes(s.subrange(0, 8)) as nat;
        let len = s[8] as int;
        if format == Format::Extended && s[8] == EXTENSION_MARKER {
            StepView::Extension { offset }
        } else if s.len() < RECORD_PREFIX_LEN + len {
            StepView::Truncated
        } else {
            StepView::Record {
                run: Run {
                    offset,
                    payload: s.subrange(RECORD_PREFIX_LEN as int, RECORD_PREFIX_LEN + len),
                },
            }
        }
    }
}

/// How the replay of a stream of records came to its end.
#[derive(Clone, Copy, Debug, PartialEq, Eq, Structural)]
pub enum StreamEnd {
    /// The stream was used up behind a whole record, or was empty.
    Complete,
    /// The stream broke off inside a record. The records in front of it were
    /// applied.
    Truncated,
    /// The stream ended with a trailing extension, which was appended.
    Extension,
}

/// The result of replaying a stream of records on a buffer.
pub struct Replay {
    /// The patched buffer.
    pub data: Seq<u8>,
    /// The number of records that were applied. A trailing extension is not
    /// counted.
    pub applied: nat,
    /// How the stream ended.
    pub end: StreamEnd,
}

/// Replays the stream of records `s` on `buf`: each whole record is written
/// over the buffer in turn; a trailing extension is appended and ends the
/// replay; a record that breaks off ends it too, with what was applied so
/// far.
pub open spec fn replay(buf: Seq<u8>, s: Seq<u8>, format: Format) -> Replay
    decreases s.len(),
{
    match first_step(s, format) {
        StepView::End => Replay { data: buf, applied: 0, end: StreamEnd::Complete },
        StepView::Truncated => Replay { data: buf, applied: 0, end: StreamEnd::Truncated },
        StepView::Extension { offset } => Replay {
            data: buf + s.skip(RECORD_PREFIX_LEN as int),
            applied: 0,
            end: StreamEnd::Extension,
        },
        StepView::Record { run } => {
            let rest = replay(
                patch(buf, run.offset as int, run.payload),
                s.skip(RECORD_PREFIX_LEN + run.payload.len()),
                format,
            );
            Replay { data: rest.data, applied: rest.applied + 1, end: rest.end }
        },
    }
}

/// What applying the delta `delta` to `base` gives: for the extended layout
/// the header is read first, and a delta without a whole header or with
/// other magic bytes is refused; then the records behind it are replayed.
pub open spec fn apply_result(base: Seq<u8>, delta: Seq<u8>, format: Format) -> Result<
    Replay,
    HeaderError,
> {
    match format {
        Format::Plain => Ok(replay(base, delta, format)),
        Format::Extended => match parse_header(delta) {
            Ok(_) => Ok(replay(base, delta.skip(HEADER_LEN as int), format)),
            Err(e) => Err(e),
        },
    }
}

/// What [`apply`] reports besides the patched buffer.
#[derive(Clone, Copy, Debug, PartialEq, Eq, Structural)]
pub struct Applied {
    /// The header of the delta, where its layout has one.
    pub header: Option<Header>,
    /// The number of records that were applied. A trailing extension is not
    /// counted.
    pub records: u64,
    /// How the stream of records ended.
    pub end: StreamEnd,
}

/// Writes the payload of `record` over `data` from the record's offset on.
/// Positions at or behind the end of `data` are skipped: the buffer never
/// grows here.
pub fn apply_record(data: &mut Vec<u8>, record: &DiffRecord)
    ensures
        final(data)@ == patch(old(data)@, record.offset as int, record.payload@),
{
    let len: usize = data.len();
    if record.offset >= len as u64 {
        assert(data@ =~= patch(old(data)@, record.offset as int, record.payload@));
        return ;
    }
    let start: usize = record.offset as usize;
    let mut i: usize = 0;
    while i < record.payload.len() && i < len - start
        invariant
            start < len,
            len == old(data)@.len(),
            start == record.offset,
            i <= record.payload@.len(),
            i <= len - start,
            data@ == patch(old(data)@, start as int, record.payload@.take(i as int)),
        decreases record.payload@.len() - i,
    {
        data[start + i] = record.payload[i];
        i += 1;
        assert(data@ =~= patch(old(data)@, start as int, record.payload@.take(i as int)));
    }
    assert(data@ =~= patch(old(data)@, record.offset as int, record.payload@));
}

/// Reads what stands at position `pos` of the delta `delta`.
pub fn read_step(delta: &[u8], pos: usize, format: Format) -> (step: Step)
    requires
        pos <= delta@.len(),
    ensures
        step@ == first_step(delta@.skip(pos as int), format),
{
    let ghost s = delta@.skip(pos as int);
    let left: usize = delta.len() - pos;
    if left == 0 {
        return Step::End;
    }
    if left < RECORD_PREFIX_LEN {
        return Step::Truncated;
    }
    let offset: u64 = u64_from_le_bytes(slice_subrange(delta, pos, pos + 8));
    assert(delta@.subrange(pos as int, pos + 8) =~= s.subrange(0, 8));
    let len_byte: u8 = delta[pos + 8];
    assert(len_byte == s[8]);
    if format == Format::Extended && len_byte == EXTENSION_MARKER {
        return Step::Extension { offset };
    }
    let len: usize = len_byte as usize;
    if left - RECORD_PREFIX_LEN < len {
        return Step::Truncated;
    }
    let start: usize = pos + RECORD_PREFIX_LEN;
    let mut payload: Vec<u8> = Vec::new();
    let mut i: usize = 0;
    while i < len
        invariant
            i <= len,
            start + len <= delta.len(),
            payload@ == delta@.subrange(start as int, start + i),
        decreases len - i,
    {
        payload.push(delta[start + i]);
        i += 1;
        assert(payload@ =~= delta@.subrange(start as int, start + i));
    }
    assert(payload@ =~= s.subrange(RECORD_PREFIX_LEN as int, RECORD_PREFIX_LEN + len));
    Step::Record { record: DiffRecord { offset, payload } }
}

/// Applies the delta `delta` to the buffer `data`.
///
/// A delta of the extended layout has to start with a whole header with the
/// right magic bytes; otherwise the error says which of the two failed and
/// `data` is left as it was. Nothing else is refused: a stream of records
/// that breaks off gives what was applied up to there.
pub fn apply(data: &mut Vec<u8>, delta: &[u8], format: Format) -> (r: Result<Applied, HeaderError>)
    ensures
        match apply_result(old(data)@, delta@, format) {
            Ok(replay) => {
                &&& r matches Ok(applied)
                &&& final(data)@ == replay.data
                &&& applied.records == replay.applied
                &&& applied.end == replay.end
                &&& applied.header == match format {
                    Format::Plain => None,
                    Format::Extended => Some(parse_header(delta@)->Ok_0),
                }
            },
            Err(e) => r == Err::<Applied, HeaderError>(e) && final(data)@ == old(data)@,
        },
{
    let mut header: Option<Header> = None;
    let mut pos: usize = 0;
    match format {
        Format::Plain => {
            assert(delta@.skip(0) =~= delta@);
        },
        Format::Extended => {
            match Header::read_from(delta) {
                Ok(h) => {
                    header = Some(h);
                    pos = HEADER_LEN;
                },
                Err(e) => {
                    return Err(e);
                },
            }
        },
    }
    let ghost whole = replay(old(data)@, delta@.skip(pos as int), format);
    let mut records: u64 = 0;
    let mut end = StreamEnd::Complete;
    let mut done = false;
    while !done
        invariant
            pos <= delta.len(),
            records <= pos,
            done ==> data@ == whole.data && records == whole.applied && end == whole.end,
            !done ==> ({
                let rest = replay(data@, delta@.skip(pos as int), format);
                &&& rest.data == whole.data
                &&& rest.applied + records == whole.applied
                &&& rest.end == whole.end
            }),
        decreases delta.len() - pos + if done { 0int } else { 1int },
    {
        let ghost s = delta@.skip(pos as int);
        match read_step(delta, pos, format) {
            Step::End => {
                end = StreamEnd::Complete;
                done = true;
            },
            Step::Truncated => {
                end = StreamEnd::Truncated;
                done = true;
            },
            Step::Extension { offset } => {
                let tail = slice_subrange(delta, pos + RECORD_PREFIX_LEN, delta.len());
                let ghost before = data@;
                let mut i: usize = 0;
                while i < tail.len()
                    invariant
                        i <= tail@.len(),
                        data@ == before + tail@.take(i as int),
                    decreases tail@.len() - i,
                {
                    data.push(tail[i]);
                    i += 1;
                }
                assert(tail@.take(tail@.len() as int) =~= tail@);
                assert(tail@ =~= s.skip(RECORD_PREFIX_LEN as int));
                end = StreamEnd::Extension;
                done = true;
            },
            Step::Record { record } => {
                apply_record(data, &record);
                assert(s.skip(RECORD_PREFIX_LEN + record@.payload.len()) =~= delta@.skip(
                    pos + RECORD_PREFIX_LEN + record@.payload.len(),
                ));
                pos = pos + RECORD_PREFIX_LEN + record.payload.len();
                records += 1;
            },
        }
    }
    Ok(Applied { header, records, end })
}

} // verus!
