use vstd::prelude::*;
use crate::data::{Data, DataView, first_zero, label_u32, lemma_first_zero, soa_at, with_soa, empty_data, label_lengths};
use crate::wellformed::lemma_name_labels_short;
use crate::header::Header;

verus! {

/// The line that describes a record type.
pub open spec fn type_text(t: u16) -> Seq<char> {
    if t == 1 {
        "Type: A (Address record) (1)"@
    } else if t == 2 {
        "Type: NS (Name server record) (2)"@
    } else if t == 5 {
        "Type: CNAME (Canonical name record) (5)"@
    } else if t == 6 {
        "Type: SOA (Start of [a zone of] authority record) (6)"@
    } else if t == 12 {
        "Type: PTR (Pointer record) (12)"@
    } else if t == 15 {
        "Type: MX (Mail exchange record) (15)"@
    } else if t == 16 {
        "Type: TXT (Text record) (16)"@
    } else if t == 17 {
        "Type: RP (Responsible person) (17)"@
    } else if t == 18 {
        "Type: AFSDB (AFS database record) (18)"@
    } else if t == 24 {
        "Type: SIG (Signature) (24)"@
    } else if t == 25 {
        "Type: KEY (Key record) (25)"@
    } else if t == 28 {
        "Type: AAAA (IPv6 address record) (28)"@
    } else {
        "somethings wrong"@
    }
}

/// The line that describes a record class.
pub open spec fn class_text(c: u16) -> Seq<char> {
    if c == 1 {
        "Class: IN (0x0001)"@
    } else if c == 2 {
        "Class: CS (0x0002)"@
    } else if c == 3 {
        "Class: CH (0x0003)"@
    } else if c == 4 {
        "Class: HS (0x0004)"@
    } else {
        "somethings wrong"@
    }
}

/// The line that describes a record type, as shown for questions and records.
pub fn type_description(t: u16) -> (s: String)
    ensures
        s@ == type_text(t),
{
    if t == 0x0001 {
        String::from_str("Type: A (Address record) (1)")
    } else if t == 0x0002 {
        String::from_str("Type: NS (Name server record) (2)")
    } else if t == 0x0005 {
        String::from_str("Type: CNAME (Canonical name record) (5)")
    } else if t == 0x0006 {
        String::from_str("Type: SOA (Start of [a zone of] authority record) (6)")
    } else if t == 0x000c {
        String::from_str("Type: PTR (Pointer record) (12)")
    } else if t == 0x000f {
        String::from_str("Type: MX (Mail exchange record) (15)")
    } else if t == 0x0010 {
        String::from_str("Type: TXT (Text record) (16)")
    } else if t == 0x0011 {
        String::from_str("Type: RP (Responsible person) (17)")
    } else if t == 0x0012 {
        String::from_str("Type: AFSDB (AFS database record) (18)")
    } else if t == 0x0018 {
        String::from_str("Type: SIG (Signature) (24)")
    } else if t == 0x0019 {
        String::from_str("Type: KEY (Key record) (25)")
    } else if t == 0x001c {
        String::from_str("Type: AAAA (IPv6 address record) (28)")
    } else {
        String::from_str("somethings wrong")
    }
}

/// The line that describes a record class, as shown for questions and records.
pub fn class_description(c: u16) -> (s: String)
    ensures
        s@ == class_text(c),
{
    if c == 0x0001 {
        String::from_str("Class: IN (0x0001)")
    } else if c == 0x0002 {
        String::from_str("Class: CS (0x0002)")
    } else if c == 0x0003 {
        String::from_str("Class: CH (0x0003)")
    } else if c == 0x0004 {
        String::from_str("Class: HS (0x0004)")
    } else {
        String::from_str("somethings wrong")
    }
}

/// The line for the response flag.
pub open spec fn qr_text(qr: u16) -> Seq<char> {
    if qr & 0x8000 == 0x8000 {
        "1... .... .... .... = Response: Message is a response"@
    } else {
        "0... .... .... .... = Response: Message is a request"@
    }
}

/// The line for the opcode, if it is a standard, inverse or status query.
pub open spec fn opcode_text(opcode: u16) -> Seq<Seq<char>> {
    let op = opcode & 0x7800;
    if op == 0 {
        seq![".000 0... .... .... = Opcode: Standard query (0)"@]
    } else if op == 0x0800 {
        seq![".000 1... .... .... = Opcode: Inverse query (1)"@]
    } else if op == 0x1000 {
        seq![".001 0... .... .... = Opcode: Server status request (2)"@]
    } else {
        Seq::empty()
    }
}

/// The line for the authoritative flag.
pub open spec fn aa_text(aa: u16) -> Seq<char> {
    if aa & 0x0780 == 0x0400 {
        ".... .1.. .... .... = Authoritative: Server is an authority for domain"@
    } else {
        ".... .0.. .... .... = Authoritative: Server is not an authority for domain"@
    }
}

/// The line for the truncated flag.
pub open spec fn tc_text(tc: u16) -> Seq<char> {
    if tc & 0x0780 == 0x0200 {
        ".... ..1. .... .... = Truncated: Message is truncated"@
    } else {
        ".... ..0. .... .... = Truncated: Message is not truncated"@
    }
}

/// The line for the recursion-desired flag.
pub open spec fn rd_text(rd: u16) -> Seq<char> {
    if rd & 0x0780 == 0x0100 {
        ".... ...1 .... .... = Recursion desired: Do query recursively"@
    } else {
        ".... ...0 .... .... = Recursion desired: Do not query recursively"@
    }
}

/// The line for the recursion-available flag.
pub open spec fn ra_text(ra: u16) -> Seq<char> {
    if ra & 0x0780 == 0x0080 {
        ".... .... 1... .... = Recursion available: Server can do recursive queries"@
    } else {
        ".... .... 0... .... = Recursion available: Server can't do recursive queries"@
    }
}

/// The line for the reply code, if it is at most 5.
pub open spec fn rcode_text(rcode: u16) -> Seq<Seq<char>> {
    let rc = rcode & 0x000F;
    if rc == 0 {
        seq![".... .... .... 0000 = Reply code: No error (0)"@]
    } else if rc == 1 {
        seq![".... .... .... 0001 = Reply code: Format Error (1)"@]
    } else if rc == 2 {
        seq![".... .... .... 0010 = Reply code: Server failure (2)"@]
    } else if rc == 3 {
        seq![".... .... .... 0011 = Reply code: Name error (3)"@]
    } else if rc == 4 {
        seq![".... .... .... 0100 = Reply code: Not implemented (4)"@]
    } else if rc == 5 {
        seq![".... .... .... 0101 = Reply code: Refused (5)"@]
    } else {
        Seq::empty()
    }
}

/// The lines that describe the flags of a header, in the order of their bits: the response
/// flag, the opcode (no line for an opcode other than a standard, inverse or status query),
/// the authoritative, truncated, recursion-desired and recursion-available flags (each
/// shown set only where its field, masked with 0x0780, is its bit alone), the reserved
/// bits, and the reply code (no line for a code above 5).
pub open spec fn flag_lines(h: Header) -> Seq<Seq<char>> {
    seq![qr_text(h.qr)] + opcode_text(h.opcode)
        + seq![aa_text(h.aa), tc_text(h.tc), rd_text(h.rd), ra_text(h.ra), ".... .... .000 .... = Z: reserved (0)"@]
        + rcode_text(h.rcode)
}

/// The text values of a vector of strings.
pub open spec fn texts(v: Seq<String>) -> Seq<Seq<char>> {
    Seq::new(v.len(), |i: int| v[i]@)
}

fn push_line(lines: &mut Vec<String>, s: &str)
    ensures
        texts(final(lines)@) == texts(old(lines)@).push(s@),
{
    lines.push(s.to_owned());
    assert(texts(lines@) =~= texts(old(lines)@).push(s@));
}

fn push_qr(lines: &mut Vec<String>, qr: u16)
    ensures
        texts(final(lines)@) == texts(old(lines)@).push(qr_text(qr)),
{
    if (qr & 0x8000) == 0x8000 {
        push_line(lines, "1... .... .... .... = Response: Message is a response");
    } else {
        push_line(lines, "0... .... .... .... = Response: Message is a request");
    }
}

fn push_opcode(lines: &mut Vec<String>, opcode: u16)
    ensures
        texts(final(lines)@) == texts(old(lines)@) + opcode_text(opcode),
{
    let op = opcode & 0x7800;
    if op == 0x0000 {
        push_line(lines, ".000 0... .... .... = Opcode: Standard query (0)");
    } else if op == 0x0800 {
        push_line(lines, ".000 1... .... .... = Opcode: Inverse query (1)");
    } else if op == 0x1000 {
        push_line(lines, ".001 0... .... .... = Opcode: Server status request (2)");
    }
    assert(texts(lines@) =~= texts(old(lines)@) + opcode_text(opcode));
}

fn push_aa(lines: &mut Vec<String>, aa: u16)
    ensures
        texts(final(lines)@) == texts(old(lines)@).push(aa_text(aa)),
{
    if (aa & 0x0780) == 0x0400 {
        push_line(lines, ".... .1.. .... .... = Authoritative: Server is an authority for domain");
    } else {
        push_line(lines, ".... .0.. .... .... = Authoritative: Server is not an authority for domain");
    }
}

fn push_tc(lines: &mut Vec<String>, tc: u16)
    ensures
        texts(final(lines)@) == texts(old(lines)@).push(tc_text(tc)),
{
    if (tc & 0x0780) == 0x0200 {
        push_line(lines, ".... ..1. .... .... = Truncated: Message is truncated");
    } else {
        push_line(lines, ".... ..0. .... .... = Truncated: Message is not truncated");
    }
}

fn push_rd(lines: &mut Vec<String>, rd: u16)
    ensures
        texts(final(lines)@) == texts(old(lines)@).push(rd_text(rd)),
{
    if (rd & 0x0780) == 0x0100 {
        push_line(lines, ".... ...1 .... .... = Recursion desired: Do query recursively");
    } else {
        push_line(lines, ".... ...0 .... .... = Recursion desired: Do not query recursively");
    }
}

fn push_ra(lines: &mut Vec<String>, ra: u16)
    ensures
        texts(final(lines)@) == texts(old(lines)@).push(ra_text(ra)),
{
    if (ra & 0x0780) == 0x0080 {
        push_line(lines, ".... .... 1... .... = Recursion available: Server can do recursive queries");
    } else {
        push_line(lines, ".... .... 0... .... = Recursion available: Server can't do recursive queries");
    }
}

fn push_rcode(lines: &mut Vec<String>, rcode: u16)
    ensures
        texts(final(lines)@) == texts(old(lines)@) + rcode_text(rcode),
{
    let rc = rcode & 0x000F;
    if rc == 0 {
        push_line(lines, ".... .... .... 0000 = Reply code: No error (0)");
    } else if rc == 1 {
        push_line(lines, ".... .... .... 0001 = Reply code: Format Error (1)");
    } else if rc == 2 {
        push_line(lines, ".... .... .... 0010 = Reply code: Server failure (2)");
    } else if rc == 3 {
        push_line(lines, ".... .... .... 0011 = Reply code: Name error (3)");
    } else if rc == 4 {
        push_line(lines, ".... .... .... 0100 = Reply code: Not implemented (4)");
    } else if rc == 5 {
        push_line(lines, ".... .... .... 0101 = Reply code: Refused (5)");
    }
    assert(texts(lines@) =~= texts(old(lines)@) + rcode_text(rcode));
}

impl Header {
    /// The lines that describe the flags of this header (see `flag_lines`).
    pub fn flag_lines(&self) -> (lines: Vec<String>)
        ensures
            texts(lines@) == flag_lines(*self),
    {
        let mut lines: Vec<String> = Vec::new();
        assert(texts(lines@) =~= Seq::<Seq<char>>::empty());
        push_qr(&mut lines, self.qr);
        push_opcode(&mut lines, self.opcode);
        push_aa(&mut lines, self.aa);
        push_tc(&mut lines, self.tc);
        push_rd(&mut lines, self.rd);
        push_ra(&mut lines, self.ra);
        push_line(&mut lines, ".... .... .000 .... = Z: reserved (0)");
        push_rcode(&mut lines, self.rcode);
        assert(texts(lines@) =~= flag_lines(*self));
        lines
    }
}

/// The labels joined by dots.
pub open spec fn dotted(ls: Seq<Seq<u8>>) -> Seq<u8>
    decreases ls.len(),
{
    if ls.len() == 0 {
        Seq::empty()
    } else if ls.len() == 1 {
        ls[0]
    } else {
        dotted(ls.drop_last()) + seq![46u8] + ls.last()
    }
}

/// The sum of the bytes, wrapping at 256.
pub open spec fn byte_sum(ls: Seq<u8>) -> u8
    decreases ls.len(),
{
    if ls.len() == 0 {
        0
    } else {
        byte_sum(ls.drop_last()).wrapping_add(ls.last())
    }
}

/// The 16-bit group shown for a label of an IPv6 address: the first byte shifted into the
/// high half, then each further byte added (wrapping at 2^16).
pub open spec fn group_value(l: Seq<u8>) -> u16
    decreases l.len(),
{
    if l.len() == 0 {
        0
    } else if l.len() == 1 {
        (l[0] as int * 256) as u16
    } else {
        group_value(l.drop_last()).wrapping_add(l.last() as u16)
    }
}

/// The data holds an SOA record's data as reading leaves it: a zero length byte ends the
/// primary server's name, a second one the mailbox's name, and five labels of at least
/// four bytes follow.
pub open spec fn soa_shape(v: DataView) -> bool {
    let z1 = first_zero(v.lengths, 0);
    let z2 = first_zero(v.lengths, z1 + 1);
    &&& z1 < v.lengths.len()
    &&& z2 < v.lengths.len()
    &&& z2 + 6 <= v.labels.len()
    &&& forall|k: int| 1 <= k <= 5 ==> #[trigger] v.labels[z2 + k].len() >= 4
}

/// The fields of an SOA record's data, as shown: the two names joined by dots, and the
/// serial, refresh, retry, expire and minimum numbers.
pub struct SoaFields {
    pub mname: Vec<u8>,
    pub rname: Vec<u8>,
    pub serial: u32,
    pub refresh: u32,
    pub retry: u32,
    pub expire: u32,
    pub minimum: u32,
}

impl Data {
    /// The labels `from` to `to - 1` joined by dots.
    fn dotted_range(&self, from: usize, to: usize) -> (r: Vec<u8>)
        requires
            from <= to <= self@.labels.len(),
        ensures
            r@ == dotted(self@.labels.subrange(from as int, to as int)),
    {
        let mut r: Vec<u8> = Vec::new();
        let mut i: usize = from;
        while i < to
            invariant
                from <= i <= to <= self@.labels.len(),
                r@ == dotted(self@.labels.subrange(from as int, i as int)),
            decreases to - i,
        {
            let ghost before = r@;
            let ghost ls = self@.labels.subrange(from as int, i as int + 1);
            if i > from {
                r.push(46u8);
            }
            let mut j: usize = 0;
            let ghost mid = r@;
            while j < self.label[i].len()
                invariant
                    from <= i < to <= self@.labels.len(),
                    j <= self@.labels[i as int].len(),
                    r@ == mid + self@.labels[i as int].take(j as int),
                decreases self@.labels[i as int].len() - j,
            {
                r.push(self.label[i][j]);
                j = j + 1;
                assert(r@ =~= mid + self@.labels[i as int].take(j as int));
            }
            assert(self@.labels[i as int].take(j as int) =~= self@.labels[i as int]);
            assert(ls.drop_last() =~= self@.labels.subrange(from as int, i as int));
            assert(ls.last() == self@.labels[i as int]);
            if i == from {
                assert(ls.len() == 1);
                assert(r@ =~= ls[0]);
            }
            i = i + 1;
        }
        r
    }

    /// The labels joined by dots, as a host name is shown.
    pub fn dotted_name(&self) -> (r: Vec<u8>)
        ensures
            r@ == dotted(self@.labels),
    {
        let r = self.dotted_range(0, self.label.len());
        assert(self@.labels.subrange(0, self@.labels.len() as int) =~= self@.labels);
        r
    }

    /// The sum of the length bytes, wrapping at 256, as the length of a name is shown.
    pub fn name_length(&self) -> (n: u8)
        ensures
            n == byte_sum(self@.lengths),
    {
        let mut count: u8 = 0;
        let mut i: usize = 0;
        while i < self.length.len()
            invariant
                i <= self@.lengths.len(),
                count == byte_sum(self@.lengths.take(i as int)),
            decreases self@.lengths.len() - i,
        {
            assert(self@.lengths.take(i as int + 1).drop_last() =~= self@.lengths.take(i as int));
            count = count.wrapping_add(self.length[i]);
            i = i + 1;
        }
        assert(self@.lengths.take(i as int) =~= self@.lengths);
        count
    }

    /// The 16-bit group of each label (see `group_value`), as an IPv6 address is shown.
    pub fn ipv6_groups(&self) -> (g: Vec<u16>)
        ensures
            g@ == Seq::new(self@.labels.len(), |i: int| group_value(self@.labels[i])),
    {
        let mut g: Vec<u16> = Vec::new();
        let mut i: usize = 0;
        while i < self.label.len()
            invariant
                i <= self@.labels.len(),
                g@ == Seq::new(i as nat, |k: int| group_value(self@.labels[k])),
            decreases self@.labels.len() - i,
        {
            let ghost l = self@.labels[i as int];
            let mut hex: u16 = 0;
            let mut j: usize = 0;
            while j < self.label[i].len()
                invariant
                    i < self@.labels.len(),
                    l == self@.labels[i as int],
                    j <= l.len(),
                    hex == group_value(l.take(j as int)),
                decreases l.len() - j,
            {
                assert(l.take(j as int + 1).drop_last() =~= l.take(j as int));
                if j == 0 {
                    hex = (self.label[i][j] as u16) * 256;
                } else {
                    hex = hex.wrapping_add(self.label[i][j] as u16);
                }
                j = j + 1;
            }
            assert(l.take(j as int) =~= l);
            g.push(hex);
            i = i + 1;
            assert(g@ =~= Seq::new(i as nat, |k: int| group_value(self@.labels[k])));
        }
        g
    }

    /// The index of the first zero length byte from `start` on.
    fn next_zero(&self, start: usize) -> (z: usize)
        requires
            start <= self@.lengths.len(),
            first_zero(self@.lengths, start as int) < self@.lengths.len(),
        ensures
            z == first_zero(self@.lengths, start as int),
    {
        proof {
            lemma_first_zero(self@.lengths, start as int);
        }
        let mut idx = start;
        let n = self.length.len();
        while self.length[idx] != 0
            invariant
                n == self@.lengths.len(),
                start <= idx <= first_zero(self@.lengths, start as int) < self@.lengths.len(),
                forall|i: int| start <= i < first_zero(self@.lengths, start as int) ==> #[trigger] self@.lengths[i] != 0,
                self@.lengths[first_zero(self@.lengths, start as int)] == 0,
            decreases first_zero(self@.lengths, start as int) - idx,
        {
            idx = idx + 1;
        }
        idx
    }

    /// Whether the data has the shape of an SOA record's data (see `soa_shape`).
    pub fn has_soa_shape(&self) -> (r: bool)
        ensures
            r == soa_shape(self@),
    {
        let ghost v = self@;
        let n = self.length.len();
        let mut z1: usize = 0;
        while z1 < n && self.length[z1] != 0
            invariant
                self@ == v,
                n == v.lengths.len(),
                z1 <= n,
                first_zero(v.lengths, z1 as int) == first_zero(v.lengths, 0),
            decreases n - z1,
        {
            z1 = z1 + 1;
        }
        if z1 >= n {
            return false;
        }
        let mut z2: usize = z1 + 1;
        while z2 < n && self.length[z2] != 0
            invariant
                self@ == v,
                n == v.lengths.len(),
                z1 < n,
                z1 == first_zero(v.lengths, 0),
                z1 + 1 <= z2 <= n,
                first_zero(v.lengths, z2 as int) == first_zero(v.lengths, z1 + 1),
            decreases n - z2,
        {
            z2 = z2 + 1;
        }
        if z2 >= n {
            return false;
        }
        if self.label.len() < 6 || z2 > self.label.len() - 6 {
            return false;
        }
        let nl = self.label.len();
        let mut k: usize = 1;
        while k <= 5
            invariant
                1 <= k <= 6,
                nl == v.labels.len(),
                z1 == first_zero(v.lengths, 0),
                z2 == first_zero(v.lengths, z1 + 1),
                z2 + 6 <= v.labels.len(),
                self@ == v,
                forall|m: int| 1 <= m < k ==> #[trigger] v.labels[z2 + m].len() >= 4,
            decreases 6 - k,
        {
            assert(self.label@[z2 + k]@.len() == v.labels[z2 + k].len());
            if self.label[z2 + k].len() < 4 {
                return false;
            }
            k = k + 1;
        }
        true
    }

    /// The fields of the SOA record data held here, as they are shown.
    pub fn soa_fields(&mut self) -> (f: SoaFields)
        requires
            soa_shape(old(self)@),
        ensures
            final(self)@ == old(self)@,
            ({
                let v = old(self)@;
                let z1 = first_zero(v.lengths, 0);
                let z2 = first_zero(v.lengths, z1 + 1);
                &&& f.mname@ == dotted(v.labels.subrange(0, z1))
                &&& f.rname@ == dotted(v.labels.subrange(z1 + 1, z2))
                &&& f.serial == label_u32(v.labels[z2 + 1])
                &&& f.refresh == label_u32(v.labels[z2 + 2])
                &&& f.retry == label_u32(v.labels[z2 + 3])
                &&& f.expire == label_u32(v.labels[z2 + 4])
                &&& f.minimum == label_u32(v.labels[z2 + 5])
            }),
    {
        let ghost v = self@;
        proof {
            lemma_first_zero(v.lengths, 0);
        }
        let nlengths = self.length.len();
        let nlabels = self.label.len();
        let z1 = self.next_zero(0);
        assert(z1 < nlengths);
        proof {
            lemma_first_zero(v.lengths, z1 + 1);
        }
        let z2 = self.next_zero(z1 + 1);
        assert(z2 + 6 <= nlabels);
        let mname = self.dotted_range(0, z1);
        let rname = self.dotted_range(z1 + 1, z2);
        assert(v.labels[z2 + 1].len() >= 4);
        assert(v.labels[z2 + 2].len() >= 4);
        assert(v.labels[z2 + 3].len() >= 4);
        assert(v.labels[z2 + 4].len() >= 4);
        assert(v.labels[z2 + 5].len() >= 4);
        let serial = self.u8_to_u32(z2 + 1);
        let refresh = self.u8_to_u32(z2 + 2);
        let retry = self.u8_to_u32(z2 + 3);
        let expire = self.u8_to_u32(z2 + 4);
        let minimum = self.u8_to_u32(z2 + 5);
        SoaFields { mname, rname, serial, refresh, retry, expire, minimum }
    }
}

proof fn lemma_first_zero_at(ls: Seq<u8>, k: int, z: int)
    requires
        0 <= k <= z < ls.len(),
        ls[z] == 0,
        forall|i: int| k <= i < z ==> #[trigger] ls[i] != 0,
    ensures
        first_zero(ls, k) == z,
    decreases z - k,
{
    if k < z {
        lemma_first_zero_at(ls, k + 1, z);
    }
}

/// The data of an SOA record as reading leaves it can be shown: it has the shape that
/// `Data::soa_fields` needs.
pub proof fn law_read_soa_shape(d: Seq<u8>, p: int, msg: Seq<u8>)
    requires
        soa_at(d, p, msg) is Some,
    ensures
        ({
            let (n1, n2, q) = soa_at(d, p, msg).unwrap();
            soa_shape(with_soa(empty_data(), d, n1, n2, q))
        }),
{
    let (n1, n2, q) = soa_at(d, p, msg).unwrap();
    let (_, q1) = crate::data::name_at(d, p, msg).unwrap();
    lemma_name_labels_short(d, p, msg);
    lemma_name_labels_short(d, q1, msg);
    let v = with_soa(empty_data(), d, n1, n2, q);
    let a = n1.len() as int;
    let b = n2.len() as int;
    assert(v.lengths =~= label_lengths(n1) + seq![0u8] + label_lengths(n2) + seq![0u8]);
    assert forall|i: int| 0 <= i < a implies #[trigger] v.lengths[i] != 0 by {
        assert(v.lengths[i] == n1[i].len() as u8);
    }
    lemma_first_zero_at(v.lengths, 0, a);
    assert forall|i: int| a + 1 <= i < a + 1 + b implies #[trigger] v.lengths[i] != 0 by {
        assert(v.lengths[i] == n2[i - a - 1].len() as u8);
    }
    lemma_first_zero_at(v.lengths, a + 1, a + 1 + b);
    assert forall|k: int| 1 <= k <= 5 implies #[trigger] v.labels[a + 1 + b + k].len() >= 4 by {
        assert(v.labels[a + 1 + b + k] == d.subrange(q + 4 * (k - 1), q + 4 * (k - 1) + 4));
    }
}

/// How the data of a record is shown, by its type.
pub enum RdataDisplay {
    /// As an IPv4 address, the first byte of each label.
    Address,
    /// As a host name.
    Hostname,
    /// As the fields of an SOA record.
    Soa,
    /// As an IPv6 address, the groups of its labels.
    Ipv6,
    /// Not at all: the record's lines end without a closing empty line.
    Nothing,
}

/// How the data of a record of type `t` is shown: A as an address, NS and CNAME as host
/// names, SOA as its fields, AAAA as an IPv6 address, PTR, MX, TXT, RP, AFSDB, SIG and KEY
/// not at all; `None` for any other type, which cannot be shown.
pub open spec fn rdata_display_of(t: u16) -> Option<RdataDisplay> {
    if t == 1 {
        Some(RdataDisplay::Address)
    } else if t == 2 || t == 5 {
        Some(RdataDisplay::Hostname)
    } else if t == 6 {
        Some(RdataDisplay::Soa)
    } else if t == 12 || t == 15 || t == 16 || t == 17 || t == 18 || t == 24 || t == 25 {
        Some(RdataDisplay::Nothing)
    } else if t == 28 {
        Some(RdataDisplay::Ipv6)
    } else {
        None
    }
}

/// How the data of a record of type `t` is shown (see `rdata_display_of`).
pub fn rdata_display(t: u16) -> (r: Option<RdataDisplay>)
    ensures
        r == rdata_display_of(t),
{
    match t {
        0x0001 => Some(RdataDisplay::Address),
        0x0002 | 0x0005 => Some(RdataDisplay::Hostname),
        0x0006 => Some(RdataDisplay::Soa),
        0x000c | 0x000f | 0x0010 | 0x0011 | 0x0012 | 0x0018 | 0x0019 => Some(RdataDisplay::Nothing),
        0x001c => Some(RdataDisplay::Ipv6),
        _ => None,
    }
}

} // verus!