use vstd::prelude::*;
use crate::reader::{Reader, be16};

verus! {

/// The two bytes of `u`, most significant first.
pub open spec fn u16_bytes(u: u16) -> Seq<u8> {
    seq![(u / 256) as u8, (u % 256) as u8]
}

/// Splits `u` into two bytes, most significant first, and appends them to `message_buffer`.
pub fn split_u16(u: u16, message_buffer: &mut Vec<u8>)
    ensures
        final(message_buffer)@ == old(message_buffer)@ + u16_bytes(u),
{
    assert(((u & 0xFF00) >> 8) as u8 == (u / 256) as u8) by (bit_vector);
    assert(((u & 0x00FF) >> 0) as u8 == (u % 256) as u8) by (bit_vector);
    message_buffer.push(((u & 0xFF00) >> 8) as u8);
    message_buffer.push(((u & 0x00FF) >> 0) as u8);
    assert(final(message_buffer)@ =~= old(message_buffer)@ + u16_bytes(u));
}

/// The header of a DNS message. The flag fields `qr` to `rcode` hold their bits in the
/// place they take in the second 16-bit word of the header (so `qr` is 0x8000 or 0).
#[derive(Clone, Copy)]
pub struct Header {
    pub id: u16,
    pub qr: u16,
    pub opcode: u16,
    pub aa: u16,
    pub tc: u16,
    pub rd: u16,
    pub ra: u16,
    pub rcode: u16,
    pub qdcount: u16,
    pub ancount: u16,
    pub nscount: u16,
    pub arcount: u16,
}

/// The header with every field zero.
pub open spec fn zero_header() -> Header {
    Header {
        id: 0,
        qr: 0,
        opcode: 0,
        aa: 0,
        tc: 0,
        rd: 0,
        ra: 0,
        rcode: 0,
        qdcount: 0,
        ancount: 0,
        nscount: 0,
        arcount: 0,
    }
}

/// The header after reading the flags word `f`: the response flag and each set bit are
/// stored in place (0x8000, 0x0400, 0x0200, 0x0100, 0x0080); a recognised opcode or reply
/// code is stored; a clear bit or an unrecognised code leaves the field as it was.
pub open spec fn header_with_flags(old: Header, f: u16) -> Header {
    Header {
        qr: if f & 0x8000 == 0x8000 { 0x8000 } else { 0 },
        opcode: if f & 0x7800 == 0 {
            0
        } else if f & 0x7800 == 0x0800 {
            0x0800
        } else if f & 0x7800 == 0x1000 {
            0x1000
        } else {
            old.opcode
        },
        aa: if f & 0x0400 == 0x0400 { 0x0400 } else { old.aa },
        tc: if f & 0x0200 == 0x0200 { 0x0200 } else { old.tc },
        rd: if f & 0x0100 == 0x0100 { 0x0100 } else { old.rd },
        ra: if f & 0x0080 == 0x0080 { 0x0080 } else { old.ra },
        rcode: if f & 0x000F <= 5 { f & 0x000F } else { old.rcode },
        ..old
    }
}

/// The header read from the twelve bytes of `d` at `p` into `old`.
pub open spec fn header_from(old: Header, d: Seq<u8>, p: int) -> Header {
    Header {
        id: be16(d, p),
        qdcount: be16(d, p + 4),
        ancount: be16(d, p + 6),
        nscount: be16(d, p + 8),
        arcount: be16(d, p + 10),
        ..header_with_flags(old, be16(d, p + 2))
    }
}

/// The flags word written for `h`.
pub open spec fn header_flags(h: Header) -> u16 {
    h.qr | h.opcode | h.aa | h.tc | h.rd | h.ra | h.rcode
}

/// The twelve bytes written for `h` (whose `tc` has been cleared): the name server and
/// additional counts are written as zero.
pub open spec fn header_bytes(h: Header) -> Seq<u8> {
    u16_bytes(h.id) + u16_bytes(header_flags(h)) + u16_bytes(h.qdcount) + u16_bytes(h.ancount)
        + u16_bytes(0) + u16_bytes(0)
}

/// The header of a standard query with transaction id `id` and one question.
pub open spec fn query_header(id: u16) -> Header {
    Header { id: id, qdcount: 1, ..zero_header() }
}

/// Each flag field holds one of the values that reading a header can store in it:
/// `qr`, `aa`, `rd` and `ra` their bit or 0, `opcode` a standard, inverse or status query,
/// `rcode` a reply code up to 5.
pub open spec fn canonical_flags(h: Header) -> bool {
    &&& h.qr == 0 || h.qr == 0x8000
    &&& h.opcode == 0 || h.opcode == 0x0800 || h.opcode == 0x1000
    &&& h.aa == 0 || h.aa == 0x0400
    &&& h.rd == 0 || h.rd == 0x0100
    &&& h.ra == 0 || h.ra == 0x0080
    &&& h.rcode <= 5
}

/// The two bytes written for `u`, read back at position `p` after the bytes `a` (with
/// `p` the length of `a`), give `u`.
pub proof fn lemma_be16_of_bytes(a: Seq<u8>, u: u16, rest: Seq<u8>, p: int)
    requires
        p == a.len(),
    ensures
        be16(a + u16_bytes(u) + rest, p) == u,
{
    let d = a + u16_bytes(u) + rest;
    let hi = (u / 256) as u8;
    let lo = (u % 256) as u8;
    assert(d[p] == hi);
    assert(d[p + 1] == lo);
    assert(hi as u32 * 256 + lo as u32 == u as u32) by (bit_vector)
        requires
            hi == (u / 256) as u8,
            lo == (u % 256) as u8,
    ;
}

/// Reading back the two bytes that `split_u16` appends gives the number split.
pub proof fn law_u16_roundtrip(u: u16, rest: Seq<u8>)
    ensures
        be16(u16_bytes(u) + rest, 0) == u,
{
    lemma_be16_of_bytes(Seq::empty(), u, rest, 0);
    assert(Seq::<u8>::empty() + u16_bytes(u) + rest =~= u16_bytes(u) + rest);
}

/// Reading back the twelve bytes that `Header::write` writes (it clears `tc` first) gives
/// the header written, but for the name server and additional counts, which are written
/// as 0; this holds for every header whose flags are values that reading can store.
pub proof fn law_header_roundtrip(h: Header, rest: Seq<u8>)
    requires
        canonical_flags(h),
    ensures
        header_from(zero_header(), header_bytes(Header { tc: 0, ..h }) + rest, 0)
            == (Header { tc: 0, nscount: 0, arcount: 0, ..h }),
{
    let w = Header { tc: 0, ..h };
    let f = header_flags(w);
    let d = header_bytes(w) + rest;
    let b0 = u16_bytes(w.id);
    let b1 = b0 + u16_bytes(f);
    let b2 = b1 + u16_bytes(w.qdcount);
    let b3 = b2 + u16_bytes(w.ancount);
    let b4 = b3 + u16_bytes(0);
    assert(d =~= Seq::<u8>::empty() + u16_bytes(w.id) + (u16_bytes(f) + u16_bytes(w.qdcount) + u16_bytes(w.ancount) + u16_bytes(0) + u16_bytes(0) + rest));
    lemma_be16_of_bytes(Seq::empty(), w.id, u16_bytes(f) + u16_bytes(w.qdcount) + u16_bytes(w.ancount) + u16_bytes(0) + u16_bytes(0) + rest, 0);
    assert(d =~= b0 + u16_bytes(f) + (u16_bytes(w.qdcount) + u16_bytes(w.ancount) + u16_bytes(0) + u16_bytes(0) + rest));
    lemma_be16_of_bytes(b0, f, u16_bytes(w.qdcount) + u16_bytes(w.ancount) + u16_bytes(0) + u16_bytes(0) + rest, 2);
    assert(d =~= b1 + u16_bytes(w.qdcount) + (u16_bytes(w.ancount) + u16_bytes(0) + u16_bytes(0) + rest));
    lemma_be16_of_bytes(b1, w.qdcount, u16_bytes(w.ancount) + u16_bytes(0) + u16_bytes(0) + rest, 4);
    assert(d =~= b2 + u16_bytes(w.ancount) + (u16_bytes(0) + u16_bytes(0) + rest));
    lemma_be16_of_bytes(b2, w.ancount, u16_bytes(0) + u16_bytes(0) + rest, 6);
    assert(d =~= b3 + u16_bytes(0) + (u16_bytes(0) + rest));
    lemma_be16_of_bytes(b3, 0, u16_bytes(0) + rest, 8);
    assert(d =~= b4 + u16_bytes(0) + rest);
    lemma_be16_of_bytes(b4, 0, rest, 10);
    let (qr, opcode, aa, rd, ra, rcode) = (h.qr, h.opcode, h.aa, h.rd, h.ra, h.rcode);
    assert({
        let g = qr | opcode | aa | 0u16 | rd | ra | rcode;
        &&& (g & 0x8000 == 0x8000 <==> qr == 0x8000)
        &&& g & 0x7800 == opcode
        &&& (g & 0x0400 == 0x0400 <==> aa == 0x0400)
        &&& g & 0x0200 != 0x0200
        &&& (g & 0x0100 == 0x0100 <==> rd == 0x0100)
        &&& (g & 0x0080 == 0x0080 <==> ra == 0x0080)
        &&& g & 0x000F == rcode
    }) by (bit_vector)
        requires
            qr == 0 || qr == 0x8000,
            opcode == 0 || opcode == 0x0800 || opcode == 0x1000,
            aa == 0 || aa == 0x0400,
            rd == 0 || rd == 0x0100,
            ra == 0 || ra == 0x0080,
            rcode <= 5,
    ;
}

impl Header {
    /// A header with every field zero.
    pub fn new() -> (h: Header)
        ensures
            h == zero_header(),
    {
        Header {
            id: 0,
            qr: 0,
            opcode: 0,
            aa: 0,
            tc: 0,
            rd: 0,
            ra: 0,
            rcode: 0,
            qdcount: 0,
            ancount: 0,
            nscount: 0,
            arcount: 0,
        }
    }

    /// Reads the twelve header bytes from `reader`.
    pub fn read_in(&mut self, reader: &mut Reader)
        requires
            old(reader).pos + 12 <= old(reader).data.len(),
        ensures
            *final(self) == header_from(*old(self), old(reader).data@, old(reader).pos as int),
            final(reader).pos == old(reader).pos + 12,
            final(reader).data@ == old(reader).data@,
    {
        self.id = reader.read_be_u16();
        let u16_buffer = reader.read_be_u16();
        if (u16_buffer & 0x8000) == 0x8000 {
            self.qr = 0x8000;
        } else {
            self.qr = 0x0000;
        };
        match u16_buffer & 0x7800 {
            0x0000 => { self.opcode = 0x0000; },
            0x0800 => { self.opcode = 0x0800; },
            0x1000 => { self.opcode = 0x1000; },
            _ => {},
        };
        if (u16_buffer & 0x0400) == 0x0400 {
            self.aa = 0x0400
        };
        if (u16_buffer & 0x0200) == 0x0200 {
            self.tc = 0x0200
        };
        if (u16_buffer & 0x0100) == 0x0100 {
            self.rd = 0x0100
        };
        if (u16_buffer & 0x0080) == 0x0080 {
            self.ra = 0x0080
        };
        match u16_buffer & 0x000F {
            0x0000 => { self.rcode = 0x0000; },
            0x0001 => { self.rcode = 0x0001; },
            0x0002 => { self.rcode = 0x0002; },
            0x0003 => { self.rcode = 0x0003; },
            0x0004 => { self.rcode = 0x0004; },
            0x0005 => { self.rcode = 0x0005; },
            _ => {},
        };
        self.qdcount = reader.read_be_u16();
        self.ancount = reader.read_be_u16();
        self.nscount = reader.read_be_u16();
        self.arcount = reader.read_be_u16();
    }

    /// Makes this the header of a standard query with one question and a random
    /// transaction id.
    pub fn generate_query_header(&mut self)
        ensures
            *final(self) == query_header(final(self).id),
    {
        let id = crate::sources::random_id();
        self.generate_query_header_with_id(id);
    }

    /// Makes this the header of a standard query with transaction id `id` and one question.
    pub fn generate_query_header_with_id(&mut self, id: u16)
        ensures
            *final(self) == query_header(id),
    {
        self.id = id;
        self.qr = 0x0000;
        self.opcode = 0x0000;
        self.aa = 0x0000;
        self.tc = 0x0000;
        self.rd = 0x0000;
        self.ra = 0x0000;
        self.rcode = 0x0000;
        self.qdcount = 0x0001;
        self.ancount = 0x0000;
        self.nscount = 0x0000;
        self.arcount = 0x0000;
    }

    /// Clears the truncated flag and returns the twelve bytes of the header.
    pub fn write(&mut self) -> (buf: Vec<u8>)
        ensures
            *final(self) == (Header { tc: 0, ..*old(self) }),
            buf@ == header_bytes(*final(self)),
    {
        self.tc = 0x0000;
        let mut header_buffer: Vec<u8> = Vec::new();
        split_u16(self.id, &mut header_buffer);
        let header_options: u16 = self.qr | self.opcode | self.aa | self.tc | self.rd | self.ra
            | self.rcode;
        split_u16(header_options, &mut header_buffer);
        split_u16(self.qdcount, &mut header_buffer);
        split_u16(self.ancount, &mut header_buffer);
        split_u16(0x0000, &mut header_buffer);
        split_u16(0x0000, &mut header_buffer);
        assert(header_buffer@ =~= header_bytes(*self));
        header_buffer
    }
}

} // verus!
