use vstd::bytes::*;
use vstd::prelude::*;
use vstd::slice::slice_subrange;

use crate::errors::RecordHeaderError;

verus! {

/// Size in bytes of the header that starts every frame.
pub const HEADER_SIZE: u64 = 32;

/// The number every frame starts with.
pub const MAGIC: u32 = 0xDEADBEEF;

/// The newest frame format that this library reads and writes.
pub const CURRENT_VERSION: u8 = 1;

/// Record type of a frame that stores a live model.
pub const RECORD_TYPE_ACTIVE: u8 = 0x01;

/// Record type of a tombstone.
pub const RECORD_TYPE_DELETED: u8 = 0x02;

/// Flag bit set on frames whose model carries an embedding vector.
pub const FLAG_HAS_VECTOR: u16 = 0x0010;

/// The fixed-size header of a record frame.
#[derive(Debug, Clone, Copy, PartialEq, Eq, Structural)]
pub struct RecordHeader {
    pub magic: u32,
    pub version: u8,
    pub record_type: u8,
    pub flags: u16,
    pub length: u64,
    pub timestamp: u64,
    pub crc32: u32,
    pub reserved: u32,
}

/// The CRC-32 (IEEE) checksum of a byte sequence.
pub uninterp spec fn crc32_of(data: Seq<u8>) -> u32;

/// The 32 little-endian bytes of a header.
pub open spec fn header_bytes(h: RecordHeader) -> Seq<u8> {
    spec_u32_to_le_bytes(h.magic) + seq![h.version, h.record_type] + spec_u16_to_le_bytes(h.flags)
        + spec_u64_to_le_bytes(h.length) + spec_u64_to_le_bytes(h.timestamp)
        + spec_u32_to_le_bytes(h.crc32) + spec_u32_to_le_bytes(h.reserved)
}

/// The header held by the 32 bytes of `b` that start at `at`.
pub open spec fn parse_header(b: Seq<u8>, at: int) -> RecordHeader {
    RecordHeader {
        magic: spec_u32_from_le_bytes(b.subrange(at, at + 4)),
        version: b[at + 4],
        record_type: b[at + 5],
        flags: spec_u16_from_le_bytes(b.subrange(at + 6, at + 8)),
        length: spec_u64_from_le_bytes(b.subrange(at + 8, at + 16)),
        timestamp: spec_u64_from_le_bytes(b.subrange(at + 16, at + 24)),
        crc32: spec_u32_from_le_bytes(b.subrange(at + 24, at + 28)),
        reserved: spec_u32_from_le_bytes(b.subrange(at + 28, at + 32)),
    }
}

/// The checks made on a header once it is read: magic, version, then length.
pub open spec fn check_header(h: RecordHeader) -> Result<RecordHeader, RecordHeaderError> {
    if h.magic != MAGIC {
        Err(RecordHeaderError::InvalidMagic { magic: h.magic })
    } else if h.version > CURRENT_VERSION {
        Err(RecordHeaderError::UnsupportedVersion { version: h.version })
    } else if h.length < HEADER_SIZE {
        Err(RecordHeaderError::InvalidLength { length: h.length })
    } else {
        Ok(h)
    }
}

/// A frame: the header's bytes followed by the payload.
pub open spec fn frame_bytes(h: RecordHeader, payload: Seq<u8>) -> Seq<u8> {
    header_bytes(h) + payload
}

/// What decoding the frame that starts at `offset` in the log `log` gives.
pub open spec fn decode_frame(log: Seq<u8>, offset: int) -> Result<
    (RecordHeader, Seq<u8>),
    RecordHeaderError,
> {
    if offset < 0 || offset + HEADER_SIZE > log.len() {
        Err(RecordHeaderError::Truncated { offset: offset as u64 })
    } else {
        match check_header(parse_header(log, offset)) {
            Err(e) => Err(e),
            Ok(h) => if offset + h.length > log.len() {
                Err(RecordHeaderError::Truncated { offset: offset as u64 })
            } else {
                let payload = log.subrange(offset + HEADER_SIZE, offset + h.length);
                if crc32_of(payload) != h.crc32 {
                    Err(
                        RecordHeaderError::CorruptedData {
                            offset: offset as u64,
                            expected: h.crc32,
                            actual: crc32_of(payload),
                        },
                    )
                } else {
                    Ok((h, payload))
                }
            },
        }
    }
}

/// A header as the write path builds it for `payload`, whatever its timestamp.
pub open spec fn is_fresh_header(
    h: RecordHeader,
    record_type: u8,
    payload: Seq<u8>,
    has_vector: bool,
) -> bool {
    &&& h.magic == MAGIC
    &&& h.version == CURRENT_VERSION
    &&& h.record_type == record_type
    &&& h.flags == (if has_vector { FLAG_HAS_VECTOR } else { 0u16 })
    &&& h.length == HEADER_SIZE + payload.len()
    &&& h.crc32 == crc32_of(payload)
    &&& h.reserved == 0
}

/// A header that decoding accepts together with `payload`.
pub open spec fn is_valid_frame(h: RecordHeader, payload: Seq<u8>) -> bool {
    &&& h.magic == MAGIC
    &&& h.version <= CURRENT_VERSION
    &&& h.length == HEADER_SIZE + payload.len()
    &&& h.crc32 == crc32_of(payload)
}

/// A header takes 32 bytes.
pub proof fn lemma_header_bytes_len(h: RecordHeader)
    ensures
        header_bytes(h).len() == HEADER_SIZE,
{
    lemma_auto_spec_u16_to_from_le_bytes();
    lemma_auto_spec_u32_to_from_le_bytes();
    lemma_auto_spec_u64_to_from_le_bytes();
}

/// Reading a header back from its bytes gives the header, wherever the bytes stand.
pub proof fn lemma_parse_header_bytes(pre: Seq<u8>, h: RecordHeader, post: Seq<u8>)
    ensures
        parse_header(pre + header_bytes(h) + post, pre.len() as int) == h,
        header_bytes(h).len() == HEADER_SIZE,
{
    lemma_auto_spec_u16_to_from_le_bytes();
    lemma_auto_spec_u32_to_from_le_bytes();
    lemma_auto_spec_u64_to_from_le_bytes();
    let b = pre + header_bytes(h) + post;
    let a = pre.len() as int;
    assert(b.subrange(a, a + 4) =~= spec_u32_to_le_bytes(h.magic));
    assert(b.subrange(a + 6, a + 8) =~= spec_u16_to_le_bytes(h.flags));
    assert(b.subrange(a + 8, a + 16) =~= spec_u64_to_le_bytes(h.length));
    assert(b.subrange(a + 16, a + 24) =~= spec_u64_to_le_bytes(h.timestamp));
    assert(b.subrange(a + 24, a + 28) =~= spec_u32_to_le_bytes(h.crc32));
    assert(b.subrange(a + 28, a + 32) =~= spec_u32_to_le_bytes(h.reserved));
    assert(b[a + 4] == h.version);
    assert(b[a + 5] == h.record_type);
}

/// Decoding a frame that the write path produced gives back its header and its payload,
/// with the checksum verified, wherever the frame stands in the log.
pub proof fn lemma_codec_round_trip(
    pre: Seq<u8>,
    h: RecordHeader,
    payload: Seq<u8>,
    post: Seq<u8>,
)
    requires
        is_valid_frame(h, payload),
    ensures
        decode_frame(pre + frame_bytes(h, payload) + post, pre.len() as int) == Ok::<
            (RecordHeader, Seq<u8>),
            RecordHeaderError,
        >((h, payload)),
{
    let log = pre + frame_bytes(h, payload) + post;
    lemma_parse_header_bytes(pre, h, payload + post);
    assert(log =~= pre + header_bytes(h) + (payload + post));
    let a = pre.len() as int;
    assert(log.subrange(a + HEADER_SIZE, a + h.length) =~= payload);
}

/// A header read from a window of 32 bytes is the one read at the window's start.
proof fn lemma_parse_header_window(log: Seq<u8>, at: int)
    requires
        0 <= at,
        at + HEADER_SIZE <= log.len(),
    ensures
        parse_header(log.subrange(at, at + HEADER_SIZE), 0) == parse_header(log, at),
{
    let w = log.subrange(at, at + HEADER_SIZE);
    assert(w.subrange(0, 4) =~= log.subrange(at, at + 4));
    assert(w.subrange(6, 8) =~= log.subrange(at + 6, at + 8));
    assert(w.subrange(8, 16) =~= log.subrange(at + 8, at + 16));
    assert(w.subrange(16, 24) =~= log.subrange(at + 16, at + 24));
    assert(w.subrange(24, 28) =~= log.subrange(at + 24, at + 28));
    assert(w.subrange(28, 32) =~= log.subrange(at + 28, at + 32));
}

impl RecordHeader {
    /// A header for a frame of `data_length` payload bytes, stamped with the time now.
    /// The checksum is left at zero, to be set once it is computed.
    pub fn new(record_type: u8, data_length: u64) -> (r: Self)
        requires
            data_length <= u64::MAX - HEADER_SIZE,
        ensures
            r.magic == MAGIC,
            r.version == CURRENT_VERSION,
            r.record_type == record_type,
            r.flags == 0,
            r.length == HEADER_SIZE + data_length,
            r.crc32 == 0,
            r.reserved == 0,
    {
        Self {
            magic: MAGIC,
            version: CURRENT_VERSION,
            record_type,
            flags: 0,
            length: HEADER_SIZE + data_length,
            timestamp: current_timestamp_micros(),
            crc32: 0,
            reserved: 0,
        }
    }

    /// Decodes the header held by the first 32 bytes of `buf` and checks its magic
    /// number, its version and its length.
    pub fn read(buf: &[u8]) -> (r: Result<Self, RecordHeaderError>)
        requires
            buf@.len() >= HEADER_SIZE,
        ensures
            r == check_header(parse_header(buf@, 0)),
    {
        let header = Self {
            magic: u32_from_le_bytes(slice_subrange(buf, 0, 4)),
            version: buf[4],
            record_type: buf[5],
            flags: u16_from_le_bytes(slice_subrange(buf, 6, 8)),
            length: u64_from_le_bytes(slice_subrange(buf, 8, 16)),
            timestamp: u64_from_le_bytes(slice_subrange(buf, 16, 24)),
            crc32: u32_from_le_bytes(slice_subrange(buf, 24, 28)),
            reserved: u32_from_le_bytes(slice_subrange(buf, 28, 32)),
        };
        if header.magic != MAGIC {
            return Err(RecordHeaderError::InvalidMagic { magic: header.magic });
        }
        if header.version > CURRENT_VERSION {
            return Err(RecordHeaderError::UnsupportedVersion { version: header.version });
        }
        if header.length < HEADER_SIZE {
            return Err(RecordHeaderError::InvalidLength { length: header.length });
        }
        Ok(header)
    }

    /// Appends the header's 32 bytes to `out`.
    pub fn write(&self, out: &mut Vec<u8>)
        ensures
            final(out)@ == old(out)@ + header_bytes(*self),
    {
        let mut bytes = u32_to_le_bytes(self.magic);
        bytes.push(self.version);
        bytes.push(self.record_type);
        let mut flags = u16_to_le_bytes(self.flags);
        bytes.append(&mut flags);
        let mut length = u64_to_le_bytes(self.length);
        bytes.append(&mut length);
        let mut timestamp = u64_to_le_bytes(self.timestamp);
        bytes.append(&mut timestamp);
        let mut crc = u32_to_le_bytes(self.crc32);
        bytes.append(&mut crc);
        let mut reserved = u32_to_le_bytes(self.reserved);
        bytes.append(&mut reserved);
        assert(bytes@ =~= header_bytes(*self));
        out.append(&mut bytes);
    }

    /// Sets the bits of `flag`, keeping those already set.
    pub fn set_flag(&mut self, flag: u16)
        ensures
            *final(self) == (RecordHeader { flags: old(self).flags | flag, ..*old(self) }),
    {
        self.flags = self.flags | flag;
    }

    /// The number of payload bytes that follow the header.
    pub fn data_size(&self) -> (r: u64)
        requires
            self.length >= HEADER_SIZE,
        ensures
            r == self.length - HEADER_SIZE,
    {
        self.length - HEADER_SIZE
    }
}

/// Relies on std::time::SystemTime: microseconds since the Unix epoch, or zero when the
/// clock stands before it. Nothing is promised of the value.
#[verifier::external_body]
fn current_timestamp_micros() -> (r: u64) {
    match std::time::SystemTime::now().duration_since(std::time::UNIX_EPOCH) {
        Ok(elapsed) => elapsed.as_micros() as u64,
        Err(_) => 0,
    }
}

/// Relies on crc32fast::hash: the CRC-32 (IEEE) checksum of `data`.
#[verifier::external_body]
fn compute_crc32(data: &[u8]) -> (r: u32)
    ensures
        r == crc32_of(data@),
{
    crc32fast::hash(data)
}

/// Builds the frame that stores `payload` with the given record type: a fresh header,
/// stamped now, with the payload's checksum and the vector flag iff `has_vector`,
/// followed by the payload itself.
pub fn encode_record(record_type: u8, payload: &[u8], has_vector: bool) -> (r: Vec<u8>)
    requires
        payload@.len() <= u64::MAX - HEADER_SIZE,
    ensures
        r@ == frame_bytes(parse_header(r@, 0), payload@),
        is_fresh_header(parse_header(r@, 0), record_type, payload@, has_vector),
        r@.len() == HEADER_SIZE + payload@.len(),
{
    let crc = compute_crc32(payload);
    let mut header = RecordHeader::new(record_type, payload.len() as u64);
    header.crc32 = crc;
    if has_vector {
        header.set_flag(FLAG_HAS_VECTOR);
        assert(0u16 | 0x0010u16 == 0x0010u16) by (bit_vector);
    }
    let mut out: Vec<u8> = Vec::new();
    header.write(&mut out);
    let mut i: usize = 0;
    while i < payload.len()
        invariant
            i <= payload@.len(),
            out@ == header_bytes(header) + payload@.subrange(0, i as int),
        decreases payload@.len() - i,
    {
        out.push(payload[i]);
        i = i + 1;
        assert(out@ =~= header_bytes(header) + payload@.subrange(0, i as int));
    }
    proof {
        assert(payload@.subrange(0, payload@.len() as int) =~= payload@);
        lemma_parse_header_bytes(Seq::empty(), header, payload@);
        assert(Seq::<u8>::empty() + header_bytes(header) + payload@ =~= out@);
    }
    out
}

/// Checks the payload read for a frame against the checksum in its header.
pub fn verify_payload(header: &RecordHeader, payload: &[u8], offset: u64) -> (r: Result<
    (),
    RecordHeaderError,
>)
    ensures
        r is Ok <==> crc32_of(payload@) == header.crc32,
        r is Err ==> r == Err::<(), RecordHeaderError>(
            RecordHeaderError::CorruptedData {
                offset,
                expected: header.crc32,
                actual: crc32_of(payload@),
            },
        ),
{
    let actual = compute_crc32(payload);
    if actual != header.crc32 {
        Err(RecordHeaderError::CorruptedData { offset, expected: header.crc32, actual })
    } else {
        Ok(())
    }
}

/// Decodes the frame that starts at `offset` in `log`: the header with its checks, then
/// the payload with its checksum. A log that ends inside the frame gives `Truncated`.
pub fn read_record(log: &[u8], offset: u64) -> (r: Result<
    (RecordHeader, Vec<u8>),
    RecordHeaderError,
>)
    ensures
        r matches Ok((h, p)) ==> decode_frame(log@, offset as int) == Ok::<
            (RecordHeader, Seq<u8>),
            RecordHeaderError,
        >((h, p@)),
        r matches Err(e) ==> decode_frame(log@, offset as int) == Err::<
            (RecordHeader, Seq<u8>),
            RecordHeaderError,
        >(e),
{
    if offset > log.len() as u64 || log.len() as u64 - offset < HEADER_SIZE {
        return Err(RecordHeaderError::Truncated { offset });
    }
    let start = offset as usize;
    let head = slice_subrange(log, start, start + 32);
    proof {
        lemma_parse_header_window(log@, offset as int);
    }
    let header = match RecordHeader::read(head) {
        Ok(h) => h,
        Err(e) => {
            return Err(e);
        },
    };
    if log.len() as u64 - offset < header.length {
        return Err(RecordHeaderError::Truncated { offset });
    }
    let data_size = header.data_size();
    let body = slice_subrange(log, start + 32, start + header.length as usize);
    match verify_payload(&header, body, offset) {
        Err(e) => Err(e),
        Ok(()) => {
            let mut data: Vec<u8> = Vec::new();
            let mut i: usize = 0;
            while i < body.len()
                invariant
                    i <= body@.len(),
                    data@ == body@.subrange(0, i as int),
                decreases body@.len() - i,
            {
                data.push(body[i]);
                i = i + 1;
                assert(data@ =~= body@.subrange(0, i as int));
            }
            assert(body@.subrange(0, body@.len() as int) =~= body@);
            assert(data_size as int == body@.len());
            Ok((header, data))
        },
    }
}

} // verus!
