//! Diff records: one run of replacement bytes each, and their byte form.

use vstd::bytes::*;
use vstd::prelude::*;

use crate::format::Format;

verus! {

/// The mathematical content of a diff record: the bytes `payload` belong at
/// the positions `offset`, `offset + 1`, ... of the target.
pub struct Run {
    pub offset: nat,
    pub payload: Seq<u8>,
}

impl Run {
    /// The position just behind the run.
    pub open spec fn end(self) -> nat {
        self.offset + self.payload.len()
    }

    /// Whether the run can be written as a record of the layout `format`: it
    /// is not empty, no longer than the layout allows, and lies within the
    /// positions a 64-bit offset can name.
    pub open spec fn fits(self, format: Format) -> bool {
        &&& 1 <= self.payload.len() <= format.run_cap()
        &&& self.end() <= u64::MAX
    }

    /// The run as a record on the wire: the offset as eight little-endian
    /// bytes, the payload's length as one byte, then the payload.
    pub open spec fn bytes(self) -> Seq<u8> {
        spec_u64_to_le_bytes(self.offset as u64) + seq![self.payload.len() as u8] + self.payload
    }
}

/// The records of `runs` on the wire, one after another.
pub open spec fn runs_bytes(runs: Seq<Run>) -> Seq<u8>
    decreases runs.len(),
{
    if runs.len() == 0 {
        Seq::empty()
    } else {
        runs[0].bytes() + runs_bytes(runs.drop_first())
    }
}

/// Writing two lists of runs one after the other is writing their
/// concatenation.
pub proof fn runs_bytes_concat(x: Seq<Run>, y: Seq<Run>)
    ensures
        runs_bytes(x + y) == runs_bytes(x) + runs_bytes(y),
    decreases x.len(),
{
    if x.len() == 0 {
        assert(x + y =~= y);
        assert(runs_bytes(x) + runs_bytes(y) =~= runs_bytes(y));
    } else {
        runs_bytes_concat(x.drop_first(), y);
        assert((x + y).drop_first() =~= x.drop_first() + y);
        assert(runs_bytes(x + y) =~= runs_bytes(x) + runs_bytes(y));
    }
}

/// Writing one more run appends its record.
pub proof fn runs_bytes_push(runs: Seq<Run>, r: Run)
    ensures
        runs_bytes(runs.push(r)) == runs_bytes(runs) + r.bytes(),
{
    let one = seq![r];
    assert(one.drop_first() =~= Seq::<Run>::empty());
    assert(runs_bytes(one.drop_first()) =~= Seq::<u8>::empty());
    assert(runs_bytes(one) =~= r.bytes());
    runs_bytes_concat(runs, one);
    assert(runs.push(r) =~= runs + one);
}

/// One run of differing bytes, as the encoder finds it and the patch applier
/// replays it.
#[derive(Debug)]
pub struct DiffRecord {
    /// Position in the target of the payload's first byte.
    pub offset: u64,
    /// The target's bytes from that position on.
    pub payload: Vec<u8>,
}

impl View for DiffRecord {
    type V = Run;

    open spec fn view(&self) -> Run {
        Run { offset: self.offset as nat, payload: self.payload@ }
    }
}

impl DiffRecord {
    /// Appends the record's bytes to `out`. The payload's length has to fit
    /// the one byte that names it.
    pub fn write_to(&self, out: &mut Vec<u8>)
        requires
            self@.payload.len() <= 255,
        ensures
            final(out)@ == old(out)@ + self@.bytes(),
    {
        let offset = u64_to_le_bytes(self.offset);
        let mut i: usize = 0;
        while i < 8
            invariant
                i <= 8,
                offset@.len() == 8,
                out@ == old(out)@ + offset@.take(i as int),
            decreases 8 - i,
        {
            out.push(offset[i]);
            i += 1;
        }
        assert(offset@.take(8) =~= offset@);
        out.push(self.payload.len() as u8);
        let ghost prefix = out@;
        let mut j: usize = 0;
        while j < self.payload.len()
            invariant
                j <= self.payload.len(),
                out@ == prefix + self.payload@.take(j as int),
            decreases self.payload.len() - j,
        {
            out.push(self.payload[j]);
            j += 1;
        }
        assert(self.payload@.take(self.payload.len() as int) =~= self.payload@);
        assert(out@ =~= old(out)@ + self@.bytes());
    }
}

} // verus!
