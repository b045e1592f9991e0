//! Frame header: fixed 90-byte big-endian wire format, stored three times and
//! recovered by byte-wise majority vote.

use vstd::prelude::*;
use crate::config::PROTOCOL_VERSION;
use crate::error::VstorageError;

verus! {

pub const HEADER_SIZE: usize = 90;

/// The big-endian value of a byte string.
pub open spec fn be_val(s: Seq<u8>) -> int
    decreases s.len(),
{
    if s.len() == 0 {
        0
    } else {
        be_val(s.drop_last()) * 256 + s.last()
    }
}

pub open spec fn u16_be(x: u16) -> Seq<u8> {
    seq![(x as int / 0x100) as u8, (x as int % 0x100) as u8]
}

pub open spec fn u32_be(x: u32) -> Seq<u8> {
    seq![
        (x as int / 0x1000000) as u8,
        (x as int / 0x10000 % 0x100) as u8,
        (x as int / 0x100 % 0x100) as u8,
        (x as int % 0x100) as u8,
    ]
}

pub open spec fn u64_be(x: u64) -> Seq<u8> {
    seq![
        (x as int / 0x100000000000000) as u8,
        (x as int / 0x1000000000000 % 0x100) as u8,
        (x as int / 0x10000000000 % 0x100) as u8,
        (x as int / 0x100000000 % 0x100) as u8,
        (x as int / 0x1000000 % 0x100) as u8,
        (x as int / 0x10000 % 0x100) as u8,
        (x as int / 0x100 % 0x100) as u8,
        (x as int % 0x100) as u8,
    ]
}

proof fn lemma_be_val2(s: Seq<u8>)
    requires
        s.len() == 2,
    ensures
        be_val(s) == s[0] * 0x100 + s[1],
{
    let t1 = s.drop_last();
    assert(t1.len() == 1 && t1[0] == s[0] && t1.last() == s[0]);
    assert(t1.drop_last().len() == 0);
    assert(be_val(t1.drop_last()) == 0);
    assert(be_val(t1) == be_val(t1.drop_last()) * 256 + t1.last());
    assert(be_val(s) == be_val(t1) * 256 + s.last());
}

proof fn lemma_be_val4(s: Seq<u8>)
    requires
        s.len() == 4,
    ensures
        be_val(s) == s[0] * 0x1000000 + s[1] * 0x10000 + s[2] * 0x100 + s[3],
{
    let t3 = s.drop_last();
    let t2 = t3.drop_last();
    assert(t2.len() == 2 && t2[0] == s[0] && t2[1] == s[1]);
    lemma_be_val2(t2);
    assert(be_val(t3) == be_val(t2) * 256 + t3.last());
    assert(t3.last() == s[2] && s.last() == s[3]);
    assert(be_val(s) == be_val(t3) * 256 + s.last());
}

proof fn lemma_be_val8(s: Seq<u8>)
    requires
        s.len() == 8,
    ensures
        be_val(s) == s[0] * 0x100000000000000 + s[1] * 0x1000000000000 + s[2] * 0x10000000000 + s[3]
            * 0x100000000 + s[4] * 0x1000000 + s[5] * 0x10000 + s[6] * 0x100 + s[7],
{
    let t7 = s.drop_last();
    let t6 = t7.drop_last();
    let t5 = t6.drop_last();
    let t4 = t5.drop_last();
    assert(t4.len() == 4 && t4[0] == s[0] && t4[1] == s[1] && t4[2] == s[2] && t4[3] == s[3]);
    lemma_be_val4(t4);
    assert(be_val(t5) == be_val(t4) * 256 + t5.last());
    assert(be_val(t6) == be_val(t5) * 256 + t6.last());
    assert(be_val(t7) == be_val(t6) * 256 + t7.last());
    assert(be_val(s) == be_val(t7) * 256 + s.last());
    assert(t5.last() == s[4] && t6.last() == s[5] && t7.last() == s[6] && s.last() == s[7]);
}

proof fn lemma_u16_be_val(x: u16)
    ensures
        be_val(u16_be(x)) == x,
{
    lemma_be_val2(u16_be(x));
    assert((x as int / 0x100) * 0x100 + (x as int % 0x100) == x) by (bit_vector);
}

proof fn lemma_u32_be_val(x: u32)
    ensures
        be_val(u32_be(x)) == x,
{
    lemma_be_val4(u32_be(x));
    assert((x as int / 0x1000000) * 0x1000000 + (x as int / 0x10000 % 0x100) * 0x10000 + (x as int
        / 0x100 % 0x100) * 0x100 + (x as int % 0x100) == x) by (bit_vector);
}

proof fn lemma_u64_be_val(x: u64)
    ensures
        be_val(u64_be(x)) == x,
{
    lemma_be_val8(u64_be(x));
    assert((x as int / 0x100000000000000) * 0x100000000000000 + (x as int / 0x1000000000000 % 0x100)
        * 0x1000000000000 + (x as int / 0x10000000000 % 0x100) * 0x10000000000 + (x as int
        / 0x100000000 % 0x100) * 0x100000000 + (x as int / 0x1000000 % 0x100) * 0x1000000 + (
    x as int / 0x10000 % 0x100) * 0x10000 + (x as int / 0x100 % 0x100) * 0x100 + (x as int % 0x100)
        == x) by (bit_vector);
}

/// Frame header contents: identical across all frames of one video except for
/// `frame_number`, `data_length` and `data_sha256`.
#[derive(Debug, Clone)]
pub struct FrameHeader {
    pub version: u8,
    pub frame_number: u32,
    pub total_frames: u32,
    pub block_size: u8,
    pub levels: u8,
    pub file_size: u64,
    pub data_length: u32,
    pub ecc_len: u8,
    pub rs_data_len: u16,
    pub nonce: [u8; 12],
    pub salt: [u8; 16],
    pub data_sha256: [u8; 32],
}

/// The 90-byte wire image of a header: magic "VSTR", then the fields at their
/// fixed offsets, big-endian.
pub open spec fn spec_serialize(h: FrameHeader) -> Seq<u8> {
    seq![0x56u8, 0x53u8, 0x54u8, 0x52u8, h.version] + u32_be(h.frame_number) + u32_be(
        h.total_frames,
    ) + seq![h.block_size, h.levels] + u64_be(h.file_size) + u32_be(h.data_length) + seq![h.ecc_len]
        + u16_be(h.rs_data_len) + h.nonce@ + h.salt@ + h.data_sha256@
}

/// A buffer parses as a header: long enough, magic matches, version supported.
pub open spec fn header_parse_ok(s: Seq<u8>) -> bool {
    s.len() >= HEADER_SIZE && s[0] == 0x56 && s[1] == 0x53 && s[2] == 0x54 && s[3] == 0x52 && s[4]
        == PROTOCOL_VERSION
}

/// `h` holds exactly the fields stored in the first 90 bytes of `s`.
pub open spec fn header_matches(h: FrameHeader, s: Seq<u8>) -> bool {
    &&& s.len() >= HEADER_SIZE
    &&& h.version == s[4]
    &&& h.frame_number as int == be_val(s.subrange(5, 9))
    &&& h.total_frames as int == be_val(s.subrange(9, 13))
    &&& h.block_size == s[13]
    &&& h.levels == s[14]
    &&& h.file_size as int == be_val(s.subrange(15, 23))
    &&& h.data_length as int == be_val(s.subrange(23, 27))
    &&& h.ecc_len == s[27]
    &&& h.rs_data_len as int == be_val(s.subrange(28, 30))
    &&& h.nonce@ == s.subrange(30, 42)
    &&& h.salt@ == s.subrange(42, 58)
    &&& h.data_sha256@ == s.subrange(58, 90)
}

fn push_u16_be(buf: &mut Vec<u8>, x: u16)
    ensures
        final(buf)@ == old(buf)@ + u16_be(x),
{
    buf.push((x / 0x100) as u8);
    buf.push((x % 0x100) as u8);
    proof {
        assert(buf@ =~= old(buf)@ + u16_be(x));
    }
}

fn push_u32_be(buf: &mut Vec<u8>, x: u32)
    ensures
        final(buf)@ == old(buf)@ + u32_be(x),
{
    proof {
        assert(x / 0x1000000 < 0x100 && x / 0x10000 % 0x100 < 0x100 && x / 0x100 % 0x100 < 0x100)
            by (bit_vector);
    }
    buf.push((x / 0x1000000) as u8);
    buf.push((x / 0x10000 % 0x100) as u8);
    buf.push((x / 0x100 % 0x100) as u8);
    buf.push((x % 0x100) as u8);
    proof {
        assert(buf@ =~= old(buf)@ + u32_be(x));
    }
}

fn push_u64_be(buf: &mut Vec<u8>, x: u64)
    ensures
        final(buf)@ == old(buf)@ + u64_be(x),
{
    proof {
        assert(x / 0x100000000000000 < 0x100 && x / 0x1000000000000 % 0x100 < 0x100 && x
            / 0x10000000000 % 0x100 < 0x100 && x / 0x100000000 % 0x100 < 0x100 && x / 0x1000000
            % 0x100 < 0x100 && x / 0x10000 % 0x100 < 0x100 && x / 0x100 % 0x100 < 0x100)
            by (bit_vector);
    }
    buf.push((x / 0x100000000000000) as u8);
    buf.push((x / 0x1000000000000 % 0x100) as u8);
    buf.push((x / 0x10000000000 % 0x100) as u8);
    buf.push((x / 0x100000000 % 0x100) as u8);
    buf.push((x / 0x1000000 % 0x100) as u8);
    buf.push((x / 0x10000 % 0x100) as u8);
    buf.push((x / 0x100 % 0x100) as u8);
    buf.push((x % 0x100) as u8);
    proof {
        assert(buf@ =~= old(buf)@ + u64_be(x));
    }
}

fn push_array(buf: &mut Vec<u8>, a: &[u8], n: usize)
    requires
        a@.len() == n,
    ensures
        final(buf)@ == old(buf)@ + a@,
{
    let mut i: usize = 0;
    while i < n
        invariant
            i <= n,
            a@.len() == n,
            buf@ == old(buf)@ + a@.take(i as int),
        decreases n - i,
    {
        buf.push(a[i]);
        i = i + 1;
        proof {
            assert(buf@ =~= old(buf)@ + a@.take(i as int));
        }
    }
    proof {
        assert(a@.take(n as int) =~= a@);
    }
}

impl FrameHeader {
    /// Serialize to the 90-byte big-endian wire format.
    pub fn serialize(&self) -> (r: Vec<u8>)
        ensures
            r@ == spec_serialize(*self),
            r@.len() == HEADER_SIZE,
    {
        let mut buf: Vec<u8> = Vec::new();
        buf.push(0x56);
        buf.push(0x53);
        buf.push(0x54);
        buf.push(0x52);
        buf.push(self.version);
        push_u32_be(&mut buf, self.frame_number);
        push_u32_be(&mut buf, self.total_frames);
        buf.push(self.block_size);
        buf.push(self.levels);
        push_u64_be(&mut buf, self.file_size);
        push_u32_be(&mut buf, self.data_length);
        buf.push(self.ecc_len);
        push_u16_be(&mut buf, self.rs_data_len);
        push_array(&mut buf, self.nonce.as_slice(), 12);
        push_array(&mut buf, self.salt.as_slice(), 16);
        push_array(&mut buf, self.data_sha256.as_slice(), 32);
        proof {
            assert(buf@ =~= spec_serialize(*self));
        }
        buf
    }

    /// Parse a header from the first 90 bytes of `buf`. A short buffer, a bad
    /// magic and an unsupported version each give a `Header` error.
    pub fn deserialize(buf: &Vec<u8>) -> (r: Result<Self, VstorageError>)
        ensures
            r is Ok <==> header_parse_ok(buf@),
            r matches Ok(h) ==> header_matches(h, buf@),
            r matches Err(e) ==> e is Header,
    {
        if buf.len() < HEADER_SIZE {
            return Err(VstorageError::Header("buffer too short"));
        }
        if !(buf[0] == 0x56 && buf[1] == 0x53 && buf[2] == 0x54 && buf[3] == 0x52) {
            return Err(VstorageError::Header("invalid magic"));
        }
        let version = buf[4];
        if version != PROTOCOL_VERSION {
            return Err(VstorageError::Header("unsupported version"));
        }
        let frame_number = read_u32_be(buf, 5);
        let total_frames = read_u32_be(buf, 9);
        let file_size = read_u64_be(buf, 15);
        let data_length = read_u32_be(buf, 23);
        let rs_data_len = read_u16_be(buf, 28);
        let nonce: [u8; 12] = [
            buf[30],
            buf[31],
            buf[32],
            buf[33],
            buf[34],
            buf[35],
            buf[36],
            buf[37],
            buf[38],
            buf[39],
            buf[40],
            buf[41],
        ];
        let salt: [u8; 16] = [
            buf[42],
            buf[43],
            buf[44],
            buf[45],
            buf[46],
            buf[47],
            buf[48],
            buf[49],
            buf[50],
            buf[51],
            buf[52],
            buf[53],
            buf[54],
            buf[55],
            buf[56],
            buf[57],
        ];
        let data_sha256: [u8; 32] = [
            buf[58],
            buf[59],
            buf[60],
            buf[61],
            buf[62],
            buf[63],
            buf[64],
            buf[65],
            buf[66],
            buf[67],
            buf[68],
            buf[69],
            buf[70],
            buf[71],
            buf[72],
            buf[73],
            buf[74],
            buf[75],
            buf[76],
            buf[77],
            buf[78],
            buf[79],
            buf[80],
            buf[81],
            buf[82],
            buf[83],
            buf[84],
            buf[85],
            buf[86],
            buf[87],
            buf[88],
            buf[89],
        ];
        let h = FrameHeader {
            version,
            frame_number,
            total_frames,
            block_size: buf[13],
            levels: buf[14],
            file_size,
            data_length,
            ecc_len: buf[27],
            rs_data_len,
            nonce,
            salt,
            data_sha256,
        };
        proof {
            assert(h.nonce@ =~= buf@.subrange(30, 42));
            assert(h.salt@ =~= buf@.subrange(42, 58));
            assert(h.data_sha256@ =~= buf@.subrange(58, 90));
        }
        Ok(h)
    }
}

fn read_u16_be(buf: &Vec<u8>, at: usize) -> (r: u16)
    requires
        at + 2 <= buf@.len(),
    ensures
        r as int == be_val(buf@.subrange(at as int, at + 2)),
{
    let n = buf.len();
    let r = (buf[at] as u16) * 0x100 + (buf[at + 1] as u16);
    proof {
        lemma_be_val2(buf@.subrange(at as int, at + 2));
    }
    r
}

fn read_u32_be(buf: &Vec<u8>, at: usize) -> (r: u32)
    requires
        at + 4 <= buf@.len(),
    ensures
        r as int == be_val(buf@.subrange(at as int, at + 4)),
{
    let n = buf.len();
    let r = (buf[at] as u32) * 0x1000000 + (buf[at + 1] as u32) * 0x10000 + (buf[at + 2] as u32)
        * 0x100 + (buf[at + 3] as u32);
    proof {
        lemma_be_val4(buf@.subrange(at as int, at + 4));
    }
    r
}

fn read_u64_be(buf: &Vec<u8>, at: usize) -> (r: u64)
    requires
        at + 8 <= buf@.len(),
    ensures
        r as int == be_val(buf@.subrange(at as int, at + 8)),
{
    let n = buf.len();
    let r = (buf[at] as u64) * 0x100000000000000 + (buf[at + 1] as u64) * 0x1000000000000 + (buf[at
        + 2] as u64) * 0x10000000000 + (buf[at + 3] as u64) * 0x100000000 + (buf[at + 4] as u64)
        * 0x1000000 + (buf[at + 5] as u64) * 0x10000 + (buf[at + 6] as u64) * 0x100 + (buf[at
        + 7] as u64);
    proof {
        lemma_be_val8(buf@.subrange(at as int, at + 8));
    }
    r
}

/// Serialization round trip: a valid header's wire image parses, and the only
/// header the image matches is the header itself.
pub proof fn lemma_header_round_trip(h: FrameHeader)
    requires
        h.version == PROTOCOL_VERSION,
    ensures
        spec_serialize(h).len() == HEADER_SIZE,
        header_parse_ok(spec_serialize(h)),
        header_matches(h, spec_serialize(h)),
        forall|h2: FrameHeader| header_matches(h2, spec_serialize(h)) ==> h2 == h,
{
    let s = spec_serialize(h);
    assert(s.len() == 90);
    assert(s.subrange(5, 9) =~= u32_be(h.frame_number));
    assert(s.subrange(9, 13) =~= u32_be(h.total_frames));
    assert(s.subrange(15, 23) =~= u64_be(h.file_size));
    assert(s.subrange(23, 27) =~= u32_be(h.data_length));
    assert(s.subrange(28, 30) =~= u16_be(h.rs_data_len));
    assert(s.subrange(30, 42) =~= h.nonce@);
    assert(s.subrange(42, 58) =~= h.salt@);
    assert(s.subrange(58, 90) =~= h.data_sha256@);
    lemma_u32_be_val(h.frame_number);
    lemma_u32_be_val(h.total_frames);
    lemma_u64_be_val(h.file_size);
    lemma_u32_be_val(h.data_length);
    lemma_u16_be_val(h.rs_data_len);
    assert(header_matches(h, s));
    assert forall|h2: FrameHeader| header_matches(h2, s) implies h2 == h by {
        assert(h2.nonce@ == h.nonce@ && h2.salt@ == h.salt@ && h2.data_sha256@ == h.data_sha256@);
        assert(h2.nonce =~= h.nonce);
        assert(h2.salt =~= h.salt);
        assert(h2.data_sha256 =~= h.data_sha256);
    }
}

/// The byte-wise vote: any value carried by at least two of the three copies,
/// and the first copy's value when all three disagree.
pub open spec fn spec_majority(a: u8, b: u8, c: u8) -> u8 {
    if a == b || a == c {
        a
    } else if b == c {
        b
    } else {
        a
    }
}

/// The 90 voted bytes of a 270-byte triple-header buffer.
pub open spec fn spec_voted(s: Seq<u8>) -> Seq<u8>
    recommends
        s.len() >= 3 * HEADER_SIZE,
{
    Seq::new(HEADER_SIZE as nat, |i: int| spec_majority(s[i], s[90 + i], s[180 + i]))
}

fn majority_vote(a: u8, b: u8, c: u8) -> (r: u8)
    ensures
        r == spec_majority(a, b, c),
{
    if a == b || a == c {
        a
    } else if b == c {
        b
    } else {
        a
    }
}

/// Encode a header three times over for error resilience.
pub fn encode_header_triple(header: &FrameHeader) -> (r: Vec<u8>)
    ensures
        r@ == spec_serialize(*header) + spec_serialize(*header) + spec_serialize(*header),
        r@.len() == 3 * HEADER_SIZE,
{
    let serialized = header.serialize();
    let mut result: Vec<u8> = Vec::new();
    push_array(&mut result, serialized.as_slice(), HEADER_SIZE);
    push_array(&mut result, serialized.as_slice(), HEADER_SIZE);
    push_array(&mut result, serialized.as_slice(), HEADER_SIZE);
    result
}

/// Decode a header from triple-redundant data by byte-wise majority vote. A
/// buffer shorter than 270 bytes gives a `Header` error.
pub fn decode_header_triple(data: &Vec<u8>) -> (r: Result<FrameHeader, VstorageError>)
    ensures
        r is Ok <==> data@.len() >= 3 * HEADER_SIZE && header_parse_ok(spec_voted(data@)),
        r matches Ok(h) ==> header_matches(h, spec_voted(data@)),
        r matches Err(e) ==> e is Header,
{
    if data.len() < HEADER_SIZE * 3 {
        return Err(VstorageError::Header("header data too short for triple decode"));
    }
    let mut voted: Vec<u8> = Vec::new();
    let mut i: usize = 0;
    while i < HEADER_SIZE
        invariant
            i <= HEADER_SIZE,
            data@.len() >= 3 * HEADER_SIZE,
            voted@ == spec_voted(data@).take(i as int),
        decreases HEADER_SIZE - i,
    {
        let v = majority_vote(data[i], data[90 + i], data[180 + i]);
        voted.push(v);
        i = i + 1;
        proof {
            assert(voted@ =~= spec_voted(data@).take(i as int));
        }
    }
    proof {
        assert(voted@ =~= spec_voted(data@));
    }
    FrameHeader::deserialize(&voted)
}

/// Triple-header resilience: if any one copy is corrupted arbitrarily while
/// the other two still carry the wire image of `h`, the majority vote
/// recovers `h` exactly.
pub proof fn lemma_triple_decode_corrupt_one(data: Seq<u8>, h: FrameHeader, corrupt: int)
    requires
        h.version == PROTOCOL_VERSION,
        data.len() >= 3 * HEADER_SIZE,
        0 <= corrupt < 3,
        forall|c: int|
            0 <= c < 3 && c != corrupt ==> #[trigger] data.subrange(90 * c, 90 * c + 90)
                == spec_serialize(h),
    ensures
        spec_voted(data) == spec_serialize(h),
        header_parse_ok(spec_voted(data)),
        forall|h2: FrameHeader| header_matches(h2, spec_voted(data)) ==> h2 == h,
{
    let s = spec_serialize(h);
    lemma_header_round_trip(h);
    let c0 = data.subrange(90int * 0, 90int * 0 + 90);
    let c1 = data.subrange(90int * 1, 90int * 1 + 90);
    let c2 = data.subrange(90int * 2, 90int * 2 + 90);
    assert(corrupt != 0 ==> c0 == s);
    assert(corrupt != 1 ==> c1 == s);
    assert(corrupt != 2 ==> c2 == s);
    assert forall|i: int| 0 <= i < 90 implies spec_voted(data)[i] == s[i] by {
        assert(c0[i] == data[i] && c1[i] == data[90 + i] && c2[i] == data[180 + i]);
    }
    assert(spec_voted(data) =~= s);
}

} // verus!
