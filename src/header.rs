use crate::error::DnsError;
use crate::utils::{be16, u16_from_big_endian, u16_of, ToBigEndian};
use vstd::prelude::*;

verus! {

/// Whether a message is a query or a reply (the QR bit).
#[derive(Debug, Clone, Copy, PartialEq, Eq, Structural)]
pub enum QueryResponse {
    Question,
    Response,
}

/// The twelve-byte header that opens every DNS message.
#[derive(Debug, Clone, Copy, PartialEq, Eq, Structural)]
pub struct DnsHeader {
    pub id: u16,
    pub qr: QueryResponse,
    pub opcode: u8,
    pub aa: u8,
    pub tc: u8,
    pub rd: u8,
    pub ra: u8,
    pub z: u8,
    pub rcode: u8,
    pub qdcount: u16,
    pub ancount: u16,
    pub nscount: u16,
    pub arcount: u16,
}

/// Length of the header on the wire.
pub const HEADER_LEN: usize = 12;

/// The header that the first twelve bytes of `b` encode.
pub open spec fn header_of(b: Seq<u8>) -> DnsHeader
    recommends
        b.len() >= 12,
{
    DnsHeader {
        id: u16_of(b[0], b[1]),
        qr: if b[2] >> 7u8 == 1 {
            QueryResponse::Response
        } else {
            QueryResponse::Question
        },
        opcode: (b[2] >> 3u8) & 0xf,
        aa: (b[2] >> 2u8) & 1,
        tc: (b[2] >> 1u8) & 1,
        rd: b[2] & 1,
        ra: (b[3] >> 7u8) & 1,
        z: (b[3] >> 4u8) & 7,
        rcode: b[3] & 0xf,
        qdcount: u16_of(b[4], b[5]),
        ancount: u16_of(b[6], b[7]),
        nscount: u16_of(b[8], b[9]),
        arcount: u16_of(b[10], b[11]),
    }
}

pub open spec fn qr_bit(qr: QueryResponse) -> u8 {
    match qr {
        QueryResponse::Question => 0,
        QueryResponse::Response => 1,
    }
}

/// Third header byte: QR, OPCODE, AA, TC, RD.
pub open spec fn flags_high(h: DnsHeader) -> u8 {
    (qr_bit(h.qr) << 7u8) | ((h.opcode & 0xf) << 3u8) | ((h.aa & 1) << 2u8) | ((h.tc & 1) << 1u8)
        | (h.rd & 1)
}

/// Fourth header byte: RA, Z, RCODE.
pub open spec fn flags_low(h: DnsHeader) -> u8 {
    ((h.ra & 1) << 7u8) | ((h.z & 7) << 4u8) | (h.rcode & 0xf)
}

/// The twelve bytes that encode `h`; each bit field keeps only its own width.
pub open spec fn header_bytes(h: DnsHeader) -> Seq<u8> {
    be16(h.id) + seq![flags_high(h), flags_low(h)] + be16(h.qdcount) + be16(h.ancount) + be16(
        h.nscount,
    ) + be16(h.arcount)
}

impl DnsHeader {
    /// Every bit field fits its width on the wire.
    pub open spec fn wf(&self) -> bool {
        &&& self.opcode < 16
        &&& self.aa < 2
        &&& self.tc < 2
        &&& self.rd < 2
        &&& self.ra < 2
        &&& self.z < 8
        &&& self.rcode < 16
    }

    /// Decodes the header from the first twelve bytes of `buffer`.
    pub fn new(buffer: &[u8]) -> (r: Result<DnsHeader, DnsError>)
        ensures
            buffer@.len() < 12 <==> r == Err::<DnsHeader, DnsError>(DnsError::MalformedHeader),
            buffer@.len() >= 12 ==> r == Ok::<DnsHeader, DnsError>(header_of(buffer@)),
    {
        if buffer.len() < HEADER_LEN {
            return Err(DnsError::MalformedHeader);
        }
        let b2 = buffer[2];
        let b3 = buffer[3];
        let qr = if b2 >> 7u8 == 1 {
            QueryResponse::Response
        } else {
            QueryResponse::Question
        };
        Ok(
            DnsHeader {
                id: u16_from_big_endian(buffer[0], buffer[1]),
                qr,
                opcode: (b2 >> 3u8) & 0xf,
                aa: (b2 >> 2u8) & 1,
                tc: (b2 >> 1u8) & 1,
                rd: b2 & 1,
                ra: (b3 >> 7u8) & 1,
                z: (b3 >> 4u8) & 7,
                rcode: b3 & 0xf,
                qdcount: u16_from_big_endian(buffer[4], buffer[5]),
                ancount: u16_from_big_endian(buffer[6], buffer[7]),
                nscount: u16_from_big_endian(buffer[8], buffer[9]),
                arcount: u16_from_big_endian(buffer[10], buffer[11]),
            },
        )
    }

    /// Encodes the header as exactly twelve bytes.
    pub fn to_bytes(&self) -> (r: Vec<u8>)
        ensures
            r@ == header_bytes(*self),
    {
        let mut buffer: Vec<u8> = Vec::new();
        let mut id = self.id.to_big_endian();
        buffer.append(&mut id);
        let qr: u8 = match self.qr {
            QueryResponse::Question => 0,
            QueryResponse::Response => 1,
        };
        buffer.push((qr << 7u8) | ((self.opcode & 0xf) << 3u8) | ((self.aa & 1) << 2u8) | ((
        self.tc & 1) << 1u8) | (self.rd & 1));
        buffer.push(((self.ra & 1) << 7u8) | ((self.z & 7) << 4u8) | (self.rcode & 0xf));
        let counts: [u16; 4] = [self.qdcount, self.ancount, self.nscount, self.arcount];
        let mut i: usize = 0;
        while i < 4
            invariant
                0 <= i <= 4,
                counts@ == seq![self.qdcount, self.ancount, self.nscount, self.arcount],
                buffer@ == be16(self.id) + seq![flags_high(*self), flags_low(*self)] + counts@.take(
                    i as int,
                ).fold_left(Seq::<u8>::empty(), |acc: Seq<u8>, c: u16| acc + be16(c)),
            decreases 4 - i,
        {
            let mut c = counts[i].to_big_endian();
            buffer.append(&mut c);
            assert(counts@.take(i + 1).drop_last() =~= counts@.take(i as int));
            i += 1;
        }
        assert(counts@.take(4) =~= counts@);
        assert(buffer@ =~= header_bytes(*self)) by {
            reveal_with_fuel(Seq::fold_left, 5);
            assert(counts@.take(1).drop_last() =~= counts@.take(0));
            assert(counts@.take(2).drop_last() =~= counts@.take(1));
            assert(counts@.take(3).drop_last() =~= counts@.take(2));
            assert(counts@.drop_last() =~= counts@.take(3));
        }
        buffer
    }
}

/// Decoding then encoding a header gives back its twelve bytes.
pub proof fn lemma_header_bytes_round_trip(b: Seq<u8>)
    requires
        b.len() >= 12,
    ensures
        header_of(b).wf(),
        header_bytes(header_of(b)) == b.subrange(0, 12),
{
    let (b2, b3) = (b[2], b[3]);
    assert(b2 >> 7u8 == 1 || b2 >> 7u8 == 0) by (bit_vector);
    assert(b2 == ((b2 >> 7u8) << 7u8) | ((((b2 >> 3u8) & 0xf) & 0xf) << 3u8) | ((((b2 >> 2u8) & 1)
        & 1) << 2u8) | ((((b2 >> 1u8) & 1) & 1) << 1u8) | ((b2 & 1) & 1)) by (bit_vector);
    assert(b3 == ((((b3 >> 7u8) & 1) & 1) << 7u8) | ((((b3 >> 4u8) & 7) & 7) << 4u8) | ((b3 & 0xf)
        & 0xf)) by (bit_vector);
    assert((b2 >> 3u8) & 0xf < 16 && (b2 >> 2u8) & 1 < 2 && (b2 >> 1u8) & 1 < 2 && b2 & 1 < 2) by (bit_vector);
    assert((b3 >> 7u8) & 1 < 2 && (b3 >> 4u8) & 7 < 8 && b3 & 0xf < 16) by (bit_vector);
    assert(header_bytes(header_of(b)) =~= b.subrange(0, 12));
}

/// Encoding then decoding a well-formed header gives back the header.
pub proof fn lemma_header_round_trip(h: DnsHeader)
    requires
        h.wf(),
    ensures
        header_bytes(h).len() == 12,
        header_of(header_bytes(h)) == h,
{
    let bytes = header_bytes(h);
    let (hi, lo) = (flags_high(h), flags_low(h));
    let q = qr_bit(h.qr);
    let (op, aa, tc, rd, ra, z, rc) = (h.opcode, h.aa, h.tc, h.rd, h.ra, h.z, h.rcode);
    assert(bytes[2] == hi && bytes[3] == lo);
    assert(q < 2 && op < 16 && aa < 2 && tc < 2 && rd < 2 && hi == (q << 7u8) | ((op & 0xf) << 3u8)
        | ((aa & 1) << 2u8) | ((tc & 1) << 1u8) | (rd & 1) ==> hi >> 7u8 == q && (hi >> 3u8) & 0xf
        == op && (hi >> 2u8) & 1 == aa && (hi >> 1u8) & 1 == tc && hi & 1 == rd) by (bit_vector);
    assert(ra < 2 && z < 8 && rc < 16 && lo == ((ra & 1) << 7u8) | ((z & 7) << 4u8) | (rc & 0xf)
        ==> (lo >> 7u8) & 1 == ra && (lo >> 4u8) & 7 == z && lo & 0xf == rc) by (bit_vector);
}

} // verus!
