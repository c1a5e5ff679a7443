use vstd::prelude::*;
use crate::error::DecodeError;

verus! {

/// Length of the fixed signature that precedes the first chunk.
pub const SIGNATURE_LEN: usize = 8;

/// The big-endian unsigned integer held by the four bytes of `b` at `i`.
pub open spec fn be_u32_at(b: Seq<u8>, i: int) -> int {
    b[i] as int * 16777216 + b[i + 1] as int * 65536 + b[i + 2] as int * 256 + b[i + 3] as int
}

/// The four bytes that hold `n` big-endian.
pub open spec fn be_bytes(n: int) -> Seq<u8> {
    seq![
        (n / 16777216) as u8,
        ((n / 65536) % 256) as u8,
        ((n / 256) % 256) as u8,
        (n % 256) as u8,
    ]
}

/// Relies on byteorder's `BigEndian::read_u32`: the four bytes at `at`,
/// most significant first.
#[verifier::external_body]
pub(crate) fn read_be_u32(buf: &[u8], at: usize) -> (r: u32)
    requires
        at + 4 <= buf@.len(),
    ensures
        r as int == be_u32_at(buf@, at as int),
{
    <byteorder::BigEndian as byteorder::ByteOrder>::read_u32(&buf[at..])
}

/// The type tag of the terminator chunk, `IEND`.
pub open spec fn end_tag() -> Seq<u8> {
    seq![73u8, 69u8, 78u8, 68u8]
}

/// One framed record: its type tag, its payload and its trailing checksum.
pub struct RawChunk {
    pub tag: Seq<u8>,
    pub data: Seq<u8>,
    pub crc: int,
}

/// A chunk as framed from the byte stream, before classification.
#[derive(Debug)]
pub struct GeneralChunk {
    pub chunk_length: usize,
    pub chunk_type: Vec<u8>,
    pub chunk_data: Vec<u8>,
    pub chunk_crc: u32,
}

impl View for GeneralChunk {
    type V = RawChunk;

    open spec fn view(&self) -> RawChunk {
        RawChunk { tag: self.chunk_type@, data: self.chunk_data@, crc: self.chunk_crc as int }
    }
}

impl GeneralChunk {
    /// The declared length matches the payload and the tag has four bytes.
    pub open spec fn wf(&self) -> bool {
        &&& self.chunk_type@.len() == 4
        &&& self.chunk_data@.len() == self.chunk_length
    }
}

/// The chunks framed from `b`, starting at `pos`, up to and including the
/// first terminator; `None` when a read runs past the end of `b`.
pub open spec fn frames_from(b: Seq<u8>, pos: int) -> Option<Seq<RawChunk>>
    decreases b.len() - pos,
{
    if pos < 0 || pos + 12 > b.len() {
        None
    } else {
        let len = be_u32_at(b, pos);
        if pos + 12 + len > b.len() {
            None
        } else {
            let c = RawChunk {
                tag: b.subrange(pos + 4, pos + 8),
                data: b.subrange(pos + 8, pos + 8 + len),
                crc: be_u32_at(b, pos + 8 + len),
            };
            if c.tag == end_tag() {
                Some(seq![c])
            } else {
                match frames_from(b, pos + 12 + len) {
                    Some(rest) => Some(seq![c] + rest),
                    None => None,
                }
            }
        }
    }
}

/// The chunks of a whole buffer, read after its signature.
pub open spec fn frames(b: Seq<u8>) -> Option<Seq<RawChunk>> {
    frames_from(b, SIGNATURE_LEN as int)
}

/// The views of a sequence of framed chunks.
pub open spec fn raw_views(cs: Seq<GeneralChunk>) -> Seq<RawChunk> {
    cs.map_values(|c: GeneralChunk| c@)
}

pub(crate) fn copy_range(b: &[u8], start: usize, end: usize) -> (r: Vec<u8>)
    requires
        start <= end <= b@.len(),
    ensures
        r@ == b@.subrange(start as int, end as int),
{
    let mut r: Vec<u8> = Vec::new();
    let mut i: usize = start;
    while i < end
        invariant
            start <= i <= end <= b@.len(),
            r@ == b@.subrange(start as int, i as int),
        decreases end - i,
    {
        r.push(b[i]);
        i = i + 1;
        proof {
            assert(r@ =~= b@.subrange(start as int, i as int));
        }
    }
    r
}

/// Splits `bytes` into chunks: after the signature, each record is a
/// big-endian length, a four-byte tag, that many payload bytes and a
/// big-endian checksum; framing stops after the terminator. The checksum is
/// carried, not checked.
pub fn parse_to_chunks(bytes: &[u8]) -> (r: Result<Vec<GeneralChunk>, DecodeError>)
    ensures
        match frames(bytes@) {
            Some(cs) => r is Ok && raw_views(r->Ok_0@) == cs,
            None => r == Err::<Vec<GeneralChunk>, DecodeError>(DecodeError::TruncatedStream),
        },
        r is Ok ==> forall|i: int| 0 <= i < r->Ok_0@.len() ==> (#[trigger] r->Ok_0@[i]).wf(),
{
    let mut chunks: Vec<GeneralChunk> = Vec::new();
    let mut pos: usize = SIGNATURE_LEN;
    loop
        invariant
            pos == SIGNATURE_LEN || pos <= bytes@.len(),
            frames(bytes@) == match frames_from(bytes@, pos as int) {
                Some(rest) => Some(raw_views(chunks@) + rest),
                None => None::<Seq<RawChunk>>,
            },
            forall|i: int| 0 <= i < chunks@.len() ==> (#[trigger] chunks@[i]).wf(),
        decreases bytes@.len() + 12 - pos,
    {
        if bytes.len() < 12 || pos > bytes.len() - 12 {
            return Err(DecodeError::TruncatedStream);
        }
        let len = read_be_u32(bytes, pos) as usize;
        if len > bytes.len() - 12 - pos {
            return Err(DecodeError::TruncatedStream);
        }
        let chunk_type = copy_range(bytes, pos + 4, pos + 8);
        let chunk_data = copy_range(bytes, pos + 8, pos + 8 + len);
        let chunk_crc = read_be_u32(bytes, pos + 8 + len);
        let is_end = chunk_type[0] == 73 && chunk_type[1] == 69 && chunk_type[2] == 78
            && chunk_type[3] == 68;
        let chunk = GeneralChunk { chunk_length: len, chunk_type, chunk_data, chunk_crc };
        proof {
            if is_end {
                assert(chunk@.tag =~= end_tag());
            }
            if chunk@.tag == end_tag() {
                assert(chunk@.tag[0] == 73 && chunk@.tag[1] == 69 && chunk@.tag[2] == 78
                    && chunk@.tag[3] == 68);
            }
        }
        let ghost before = chunks@;
        chunks.push(chunk);
        proof {
            assert(raw_views(chunks@) =~= raw_views(before) + seq![chunk@]);
        }
        pos = pos + 12 + len;
        if is_end {
            proof {
                assert(raw_views(before) + seq![chunk@] =~= raw_views(chunks@));
            }
            return Ok(chunks);
        }
        proof {
            let rest = frames_from(bytes@, pos as int);
            if let Some(t) = rest {
                assert(raw_views(before) + (seq![chunk@] + t) =~= raw_views(chunks@) + t);
            }
        }
    }
}

proof fn lemma_be_bytes(n: int)
    requires
        0 <= n < 0x1_0000_0000,
    ensures
        be_bytes(n).len() == 4,
        be_u32_at(be_bytes(n), 0) == n,
{
    let q1 = n / 256;
    let q2 = q1 / 256;
    let q3 = q2 / 256;
    vstd::arithmetic::div_mod::lemma_fundamental_div_mod(n, 256);
    vstd::arithmetic::div_mod::lemma_fundamental_div_mod(q1, 256);
    vstd::arithmetic::div_mod::lemma_fundamental_div_mod(q2, 256);
    vstd::arithmetic::div_mod::lemma_div_denominator(n, 256, 256);
    vstd::arithmetic::div_mod::lemma_div_denominator(q1, 256, 256);
    vstd::arithmetic::div_mod::lemma_div_denominator(n, 65536, 256);
    assert(q3 < 256);
    let b = be_bytes(n);
    assert(b[0] as int == q3);
    assert(b[1] as int == q2 % 256);
    assert(b[2] as int == q1 % 256);
    assert(b[3] as int == n % 256);
}

/// The bytes of one record: big-endian length, tag, payload, big-endian checksum.
pub open spec fn encode_record(c: RawChunk) -> Seq<u8> {
    be_bytes(c.data.len() as int) + c.tag + c.data + be_bytes(c.crc)
}

/// The records of `cs`, one after another.
pub open spec fn encode_records(cs: Seq<RawChunk>) -> Seq<u8>
    decreases cs.len(),
{
    if cs.len() == 0 {
        Seq::empty()
    } else {
        encode_record(cs[0]) + encode_records(cs.drop_first())
    }
}

/// A record that can be written: a four-byte tag, a payload whose length
/// fits the length field, and a checksum that fits its field.
pub open spec fn record_ok(c: RawChunk) -> bool {
    &&& c.tag.len() == 4
    &&& c.data.len() < 0x1_0000_0000
    &&& 0 <= c.crc < 0x1_0000_0000
}

/// A record sequence that framing can end: every record can be written,
/// and the terminator tag stands on the last record and on no other.
pub open spec fn records_ok(cs: Seq<RawChunk>) -> bool {
    &&& cs.len() > 0
    &&& forall|i: int| 0 <= i < cs.len() ==> record_ok(#[trigger] cs[i])
    &&& forall|i: int| 0 <= i < cs.len() - 1 ==> (#[trigger] cs[i]).tag != end_tag()
    &&& cs.last().tag == end_tag()
}

proof fn lemma_frames_encoded(p: Seq<u8>, cs: Seq<RawChunk>)
    requires
        records_ok(cs),
    ensures
        frames_from(p + encode_records(cs), p.len() as int) == Some(cs),
    decreases cs.len(),
{
    let c = cs[0];
    let tail = cs.drop_first();
    let rec = encode_record(c);
    let b = p + encode_records(cs);
    let pos = p.len() as int;
    let len = c.data.len() as int;
    assert(record_ok(cs[0]));
    lemma_be_bytes(len);
    lemma_be_bytes(c.crc);
    assert(rec.len() == 12 + len);
    assert(b =~= (p + rec) + encode_records(tail));
    assert(b.subrange(pos, pos + 12 + len) =~= rec);
    assert(be_u32_at(b, pos) == be_u32_at(be_bytes(len), 0));
    assert(b.subrange(pos + 4, pos + 8) =~= c.tag);
    assert(b.subrange(pos + 8, pos + 8 + len) =~= c.data);
    assert(be_u32_at(b, pos + 8 + len) == be_u32_at(be_bytes(c.crc), 0));
    let framed = RawChunk {
        tag: b.subrange(pos + 4, pos + 8),
        data: b.subrange(pos + 8, pos + 8 + len),
        crc: be_u32_at(b, pos + 8 + len),
    };
    assert(framed == c);
    if cs.len() == 1 {
        assert(seq![c] =~= cs);
    } else {
        assert(c.tag != end_tag());
        assert(records_ok(tail)) by {
            assert forall|i: int| 0 <= i < tail.len() implies record_ok(#[trigger] tail[i]) by {
                assert(tail[i] == cs[i + 1]);
            }
            assert forall|i: int| 0 <= i < tail.len() - 1 implies (#[trigger] tail[i]).tag
                != end_tag() by {
                assert(tail[i] == cs[i + 1]);
            }
        }
        lemma_frames_encoded(p + rec, tail);
        assert(seq![c] + tail =~= cs);
    }
}

/// Framing a buffer made of an eight-byte signature and well-formed records
/// recovers exactly those records, tags, payloads and checksums, in order.
pub proof fn lemma_framing_round_trip(sig: Seq<u8>, cs: Seq<RawChunk>)
    requires
        sig.len() == SIGNATURE_LEN,
        records_ok(cs),
    ensures
        frames(sig + encode_records(cs)) == Some(cs),
{
    lemma_frames_encoded(sig, cs);
}

} // verus!
