//! The fixed 12-byte header at the start of every message.
use vstd::prelude::*;

use crate::error::DecodeError;
use crate::wire::{be16_at, lemma_u16_bytes_round_trip, push_u16, read_u16, u16_bytes};

verus! {

/// Length of the header on the wire.
pub const HEADER_LEN: usize = 12;

/// A message header, one field per wire field; flags and codes are held as
/// small integers (`qr` is 0 or 1, `op_code` has 4 bits, `z` has 3).
#[derive(Clone, Copy, Debug, PartialEq, Eq, Structural)]
pub struct DnsHeader {
    pub id: u16,
    pub qr: u8,
    pub op_code: u8,
    pub aa: u8,
    pub tc: u8,
    pub rd: u8,
    pub ra: u8,
    pub z: u8,
    pub rcode: u8,
    pub qdcount: u16,
    pub ancount: u16,
    pub nscount: u16,
    pub arcount: u16,
}

/// The response code for a query with this operation code: 0 for a standard
/// query, 4 (not implemented) for any other.
pub open spec fn rcode_for(op_code: u8) -> u8 {
    if op_code == 0 {
        0
    } else {
        4
    }
}

/// Third header byte: QR, OPCODE, AA, TC, RD from the high bit down.
pub open spec fn flags_byte(h: DnsHeader) -> u8 {
    ((h.qr % 2) as int * 128 + (h.op_code % 16) as int * 8 + (h.aa % 2) as int * 4 + (h.tc
        % 2) as int * 2 + (h.rd % 2) as int) as u8
}

/// Fourth header byte: RA, Z, RCODE from the high bit down.
pub open spec fn status_byte(h: DnsHeader) -> u8 {
    ((h.ra % 2) as int * 128 + (h.z % 8) as int * 16 + (h.rcode % 16) as int) as u8
}

/// The header as it stands on the wire.
pub open spec fn header_bytes(h: DnsHeader) -> Seq<u8> {
    u16_bytes(h.id) + seq![flags_byte(h), status_byte(h)] + u16_bytes(h.qdcount) + u16_bytes(
        h.ancount,
    ) + u16_bytes(h.nscount) + u16_bytes(h.arcount)
}

/// The operation code held in bits 3 to 6 of the third byte.
pub open spec fn op_code_of(b: Seq<u8>) -> u8 {
    ((b[2] / 8) % 16) as u8
}

/// Every field of the header in the first 12 bytes of `b`.
pub open spec fn header_from_wire(b: Seq<u8>) -> DnsHeader {
    DnsHeader {
        id: be16_at(b, 0),
        qr: b[2] / 128,
        op_code: op_code_of(b),
        aa: (b[2] / 4) % 2,
        tc: (b[2] / 2) % 2,
        rd: b[2] % 2,
        ra: b[3] / 128,
        z: (b[3] / 16) % 8,
        rcode: b[3] % 16,
        qdcount: be16_at(b, 4),
        ancount: be16_at(b, 6),
        nscount: be16_at(b, 8),
        arcount: be16_at(b, 10),
    }
}

/// The response header for the query header in the first 12 bytes of `b`: the
/// ID, OPCODE and RD bit echoed, QR set, RCODE from the OPCODE, everything else
/// zero. The counts are filled in once the questions are known.
pub open spec fn response_header(b: Seq<u8>) -> DnsHeader {
    DnsHeader {
        id: be16_at(b, 0),
        qr: 1,
        op_code: op_code_of(b),
        aa: 0,
        tc: 0,
        rd: b[2] % 2,
        ra: 0,
        z: 0,
        rcode: rcode_for(op_code_of(b)),
        qdcount: 0,
        ancount: 0,
        nscount: 0,
        arcount: 0,
    }
}

impl DnsHeader {
    /// Every flag and code fits its width on the wire.
    pub open spec fn wf(self) -> bool {
        &&& self.qr < 2
        &&& self.op_code < 16
        &&& self.aa < 2
        &&& self.tc < 2
        &&& self.rd < 2
        &&& self.ra < 2
        &&& self.z < 8
        &&& self.rcode < 16
    }

    /// The response header for the query whose header opens `buffer`.
    pub fn new(buffer: &[u8]) -> (r: Result<DnsHeader, DecodeError>)
        ensures
            buffer@.len() < 12 ==> r == Err::<DnsHeader, DecodeError>(DecodeError::TruncatedInput),
            buffer@.len() >= 12 ==> r == Ok::<DnsHeader, DecodeError>(response_header(buffer@)),
            buffer@.len() >= 12 && op_code_of(buffer@) != 0 ==> r->Ok_0.rcode == 4,
            r is Ok ==> r->Ok_0.wf(),
    {
        if buffer.len() < HEADER_LEN {
            return Err(DecodeError::TruncatedInput);
        }
        let id = read_u16(buffer, 0);
        let op_code: u8 = (buffer[2] / 8) % 16;
        let rd: u8 = buffer[2] % 2;
        let rcode: u8 = if op_code == 0 {
            0
        } else {
            4
        };
        Ok(
            DnsHeader {
                id,
                qr: 1,
                op_code,
                aa: 0,
                tc: 0,
                rd,
                ra: 0,
                z: 0,
                rcode,
                qdcount: 0,
                ancount: 0,
                nscount: 0,
                arcount: 0,
            },
        )
    }

    /// Every field of the header that opens `buffer`, as it stands.
    pub fn from_bytes(buffer: &[u8]) -> (r: Result<DnsHeader, DecodeError>)
        ensures
            buffer@.len() < 12 ==> r == Err::<DnsHeader, DecodeError>(DecodeError::TruncatedInput),
            buffer@.len() >= 12 ==> r == Ok::<DnsHeader, DecodeError>(header_from_wire(buffer@)),
            r is Ok ==> r->Ok_0.wf(),
    {
        if buffer.len() < HEADER_LEN {
            return Err(DecodeError::TruncatedInput);
        }
        let flags = buffer[2];
        let status = buffer[3];
        Ok(
            DnsHeader {
                id: read_u16(buffer, 0),
                qr: flags / 128,
                op_code: (flags / 8) % 16,
                aa: (flags / 4) % 2,
                tc: (flags / 2) % 2,
                rd: flags % 2,
                ra: status / 128,
                z: (status / 16) % 8,
                rcode: status % 16,
                qdcount: read_u16(buffer, 4),
                ancount: read_u16(buffer, 6),
                nscount: read_u16(buffer, 8),
                arcount: read_u16(buffer, 10),
            },
        )
    }

    /// The header in wire format; each flag and code contributes only the bits
    /// of its width.
    pub fn to_bytes(&self) -> (r: Vec<u8>)
        ensures
            r@ == header_bytes(*self),
            r@.len() == 12,
    {
        let mut bytes: Vec<u8> = Vec::new();
        let flags: u8 = (self.qr % 2) * 128 + (self.op_code % 16) * 8 + (self.aa % 2) * 4 + (
        self.tc % 2) * 2 + self.rd % 2;
        let status: u8 = (self.ra % 2) * 128 + (self.z % 8) * 16 + self.rcode % 16;
        push_u16(&mut bytes, self.id);
        bytes.push(flags);
        bytes.push(status);
        push_u16(&mut bytes, self.qdcount);
        push_u16(&mut bytes, self.ancount);
        push_u16(&mut bytes, self.nscount);
        push_u16(&mut bytes, self.arcount);
        assert(bytes@ =~= header_bytes(*self));
        bytes
    }
}

/// Decoding every field of an encoded header gives the header back, for each
/// header whose flags and codes fit their widths.
pub proof fn lemma_header_round_trip(h: DnsHeader)
    requires
        h.wf(),
    ensures
        header_bytes(h).len() == 12,
        header_from_wire(header_bytes(h)) == h,
{
    let b = header_bytes(h);
    assert(b.subrange(0, 2) =~= u16_bytes(h.id));
    lemma_u16_bytes_round_trip(h.id);
    lemma_u16_bytes_round_trip(h.qdcount);
    lemma_u16_bytes_round_trip(h.ancount);
    lemma_u16_bytes_round_trip(h.nscount);
    lemma_u16_bytes_round_trip(h.arcount);
    assert(be16_at(b, 0) == be16_at(u16_bytes(h.id), 0));
    assert(be16_at(b, 4) == be16_at(u16_bytes(h.qdcount), 0));
    assert(be16_at(b, 6) == be16_at(u16_bytes(h.ancount), 0));
    assert(be16_at(b, 8) == be16_at(u16_bytes(h.nscount), 0));
    assert(be16_at(b, 10) == be16_at(u16_bytes(h.arcount), 0));
    assert(b[2] == flags_byte(h));
    assert(b[3] == status_byte(h));
}

/// Decoding an encoded response header as a query gives it back: a header with
/// QR set, AA, TC, RA and Z clear, the RCODE that its OPCODE calls for and zero
/// counts survives encoding followed by `DnsHeader::new`.
pub proof fn lemma_response_header_round_trip(h: DnsHeader)
    requires
        h.wf(),
        h.qr == 1,
        h.aa == 0,
        h.tc == 0,
        h.ra == 0,
        h.z == 0,
        h.rcode == rcode_for(h.op_code),
        h.qdcount == 0,
        h.ancount == 0,
        h.nscount == 0,
        h.arcount == 0,
    ensures
        response_header(header_bytes(h)) == h,
{
    lemma_header_round_trip(h);
}

} // verus!
