//! The wire layout shared by the encoder and the patch applier: constants,
//! the two delta layouts, and the header of the extended layout.

use vstd::bytes::*;
use vstd::prelude::*;
use vstd::slice::*;

verus! {

/// Number of bytes the encoder compares at a time. No record crosses a
/// multiple of this size.
pub const CHUNK_SIZE: usize = 1048576;

/// Length in bytes of the header of the extended layout.
pub const HEADER_LEN: usize = 13;

/// Length in bytes of what precedes a record's payload: the offset and the
/// length byte.
pub const RECORD_PREFIX_LEN: usize = 9;

/// Version number written into the header.
pub const FORMAT_VERSION: u8 = 1;

/// Value of the length byte that, in the extended layout, marks the trailing
/// extension instead of giving a payload length.
pub const EXTENSION_MARKER: u8 = 0xFF;

/// The four bytes every header starts with.
pub open spec fn magic() -> Seq<u8> {
    seq![0x44u8, 0x49u8, 0x46u8, 0x46u8]
}

/// The layout of a delta.
#[derive(Clone, Copy, Debug, PartialEq, Eq, Structural)]
pub enum Format {
    /// Records only, over the common prefix of the two buffers. Bytes of
    /// either buffer beyond the shorter one's length leave no trace in the
    /// delta. A payload is 1 to 255 bytes long.
    Plain,
    /// A header, then the records over the base's length, then, where the
    /// target is longer than the base, one trailing extension with the
    /// target's remaining bytes. The length byte 255 is taken by the
    /// extension marker, so a payload is 1 to 254 bytes long.
    Extended,
}

impl Format {
    /// The longest payload a record of this layout may carry.
    pub open spec fn run_cap(self) -> nat {
        match self {
            Format::Plain => 255,
            Format::Extended => 254,
        }
    }

    /// Whether a delta of this layout starts with a header.
    pub open spec fn has_header(self) -> bool {
        self == Format::Extended
    }

    /// The longest payload a record of this layout may carry.
    pub fn max_run(self) -> (cap: usize)
        ensures
            cap == self.run_cap(),
            1 <= cap <= 255,
    {
        match self {
            Format::Plain => 255,
            Format::Extended => 254,
        }
    }
}

/// How a delta fails to be one of the extended layout.
#[derive(Clone, Copy, Debug, PartialEq, Eq, Structural)]
pub enum HeaderError {
    /// The delta ends before the header does.
    Truncated,
    /// The delta does not start with the magic bytes.
    BadMagic,
}

/// The header of the extended layout, without its constant magic bytes.
#[derive(Clone, Copy, Debug, PartialEq, Eq, Structural)]
pub struct Header {
    /// Version of the layout the delta was written in.
    pub version: u8,
    /// The larger of the two buffer lengths the delta was made from.
    pub declared_size: u64,
}

/// The thirteen bytes of a header: the magic bytes, the version, and the
/// declared size as eight little-endian bytes.
pub open spec fn header_bytes(h: Header) -> Seq<u8> {
    magic() + seq![h.version] + spec_u64_to_le_bytes(h.declared_size)
}

/// What the first bytes of a delta say when read as a header.
pub open spec fn parse_header(s: Seq<u8>) -> Result<Header, HeaderError> {
    if s.len() < HEADER_LEN {
        Err(HeaderError::Truncated)
    } else if s.subrange(0, 4) != magic() {
        Err(HeaderError::BadMagic)
    } else {
        Ok(Header { version: s[4], declared_size: spec_u64_from_le_bytes(s.subrange(5, 13)) })
    }
}

/// A header followed by anything reads back as that header.
pub proof fn header_round_trip(h: Header, rest: Seq<u8>)
    ensures
        header_bytes(h).len() == HEADER_LEN,
        parse_header(header_bytes(h) + rest) == Ok::<Header, HeaderError>(h),
{
    lemma_auto_spec_u64_to_from_le_bytes();
    let s = header_bytes(h) + rest;
    assert(s.subrange(0, 4) =~= magic());
    assert(s.subrange(5, 13) =~= spec_u64_to_le_bytes(h.declared_size));
}

impl Header {
    /// Appends the header's bytes to `out`.
    pub fn write_to(&self, out: &mut Vec<u8>)
        ensures
            final(out)@ == old(out)@ + header_bytes(*self),
    {
        out.push(0x44);
        out.push(0x49);
        out.push(0x46);
        out.push(0x46);
        out.push(self.version);
        let size = u64_to_le_bytes(self.declared_size);
        let mut i: usize = 0;
        while i < 8
            invariant
                i <= 8,
                size@ == spec_u64_to_le_bytes(self.declared_size),
                size@.len() == 8,
                out@ == old(out)@ + magic() + seq![self.version] + size@.take(i as int),
            decreases 8 - i,
        {
            out.push(size[i]);
            i += 1;
        }
        assert(size@.take(8) =~= size@);
        assert(out@ =~= old(out)@ + header_bytes(*self));
    }

    /// Reads the header a delta of the extended layout starts with.
    pub fn read_from(delta: &[u8]) -> (r: Result<Header, HeaderError>)
        ensures
            r == parse_header(delta@),
    {
        if delta.len() < HEADER_LEN {
            return Err(HeaderError::Truncated);
        }
        if delta[0] != 0x44 || delta[1] != 0x49 || delta[2] != 0x46 || delta[3] != 0x46 {
            assert(delta@.subrange(0, 4)[0] == delta@[0]);
            assert(delta@.subrange(0, 4)[1] == delta@[1]);
            assert(delta@.subrange(0, 4)[2] == delta@[2]);
            assert(delta@.subrange(0, 4)[3] == delta@[3]);
            return Err(HeaderError::BadMagic);
        }
        assert(delta@.subrange(0, 4) =~= magic());
        let declared_size = u64_from_le_bytes(slice_subrange(delta, 5, 13));
        Ok(Header { version: delta[4], declared_size })
    }
}

} // verus!
