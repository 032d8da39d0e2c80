use vstd::prelude::*;
use crate::reader::{Reader, be16, be32};
use crate::data::{Data, DataView, empty_data, with_name, name_at, soa_at, with_soa, with_ipv4, with_ipv6, concat_labels, data_bytes, holds_ipv4, plain_name_data, law_name_roundtrip, lemma_name_at_shift, lemma_plain_name_rebuilt,
    labels_bytes, label_lengths, soa_numbers, lemma_labels_bytes_shift};
use crate::header::{u16_bytes, lemma_be16_of_bytes};
use crate::net::{SocketAddress, Ipv4Addr};
pub use crate::header::split_u16;

verus! {

/// Abstract value of a `Resource`.
pub struct ResourceView {
    pub rname: DataView,
    pub rtype: u16,
    pub rclass: u16,
    pub ttl: u32,
    pub rdlength: u16,
    pub rdata: DataView,
    pub cache_timeout: i64,
}

/// A resource record: the name it pertains to, its type, class, time to live, data length
/// and data, and the time (in nanoseconds) at which it entered a cache.
pub struct Resource {
    pub rname: Data,
    pub rtype: u16,
    pub rclass: u16,
    pub ttl: u32,
    pub rdlength: u16,
    pub rdata: Data,
    pub cache_timeout: i64,
}

impl View for Resource {
    type V = ResourceView;

    open spec fn view(&self) -> ResourceView {
        ResourceView {
            rname: self.rname@,
            rtype: self.rtype,
            rclass: self.rclass,
            ttl: self.ttl,
            rdlength: self.rdlength,
            rdata: self.rdata@,
            cache_timeout: self.cache_timeout,
        }
    }
}

/// The record with empty names and every number zero.
pub open spec fn empty_resource() -> ResourceView {
    ResourceView {
        rname: empty_data(),
        rtype: 0,
        rclass: 0,
        ttl: 0,
        rdlength: 0,
        rdata: empty_data(),
        cache_timeout: 0,
    }
}

/// The message of the error for a record type that cannot be read.
pub open spec fn unsupported_type_message(t: u16) -> Seq<char> {
    if t == 12 {
        "Error: Resource Type (12) not supported"@
    } else if t == 15 {
        "Error: Resource Type (15) not supported"@
    } else if t == 16 {
        "Error: Resource Type (16) not supported"@
    } else if t == 17 {
        "Error: Resource Type (17) not supported"@
    } else if t == 18 {
        "Error: Resource Type (18) not supported"@
    } else if t == 24 {
        "Error: Resource Type (24) not supported"@
    } else if t == 25 {
        "Error: Resource Type (25) not supported"@
    } else {
        "Error: Resource Type (?) not supported"@
    }
}

/// The record types whose data can be read: A, NS, CNAME, SOA and AAAA.
pub open spec fn supported_type(t: u16) -> bool {
    t == 1 || t == 2 || t == 5 || t == 6 || t == 28
}

/// The sum, wrapping at 2^16, of each of the first `n` length bytes plus one.
pub open spec fn lengths_sum(ls: Seq<u8>, n: nat) -> u16
    decreases n,
{
    if n == 0 {
        0
    } else {
        lengths_sum(ls, (n - 1) as nat).wrapping_add((ls[n - 1] + 1) as u16)
    }
}

/// The data length recomputed for an NS or CNAME record from the length bytes of its data.
pub open spec fn name_rdlength(rdata: DataView) -> u16 {
    lengths_sum(rdata.lengths, rdata.lengths.len()).wrapping_add(1)
}

/// The data of a record of type `t` read from `d` at `p` into `rdata`, and the position after it.
pub open spec fn rdata_at(t: u16, rdata: DataView, d: Seq<u8>, p: int, msg: Seq<u8>) -> Option<(DataView, int)> {
    if t == 1 {
        if p + 4 <= d.len() { Some((with_ipv4(rdata, d, p), p + 4)) } else { None }
    } else if t == 2 || t == 5 {
        match name_at(d, p, msg) {
            Some((ls, q)) => Some((with_name(rdata, ls), q)),
            None => None,
        }
    } else if t == 6 {
        match soa_at(d, p, msg) {
            Some((n1, n2, q)) => Some((with_soa(rdata, d, n1, n2, q), q + 20)),
            None => None,
        }
    } else if t == 28 {
        if p + 16 <= d.len() { Some((with_ipv6(rdata, d, p), p + 16)) } else { None }
    } else {
        None
    }
}

/// Reading a record from `d` at `p` into `old` (names may point into `msg`): the record
/// as it stands afterwards, the position after what was read, and the error message where
/// the type cannot be read; `None` where the record runs past the end of `d`.
/// The record's data is appended to the data `old` held.
pub open spec fn resource_at(old: ResourceView, d: Seq<u8>, p: int, msg: Seq<u8>) -> Option<(ResourceView, int, Option<Seq<char>>)> {
    match name_at(d, p, msg) {
        Some((ls, q)) => if q + 10 > d.len() {
            None
        } else {
            let head = ResourceView {
                rname: with_name(empty_data(), ls),
                rtype: be16(d, q),
                rclass: be16(d, q + 2),
                ttl: be32(d, q + 4),
                rdlength: be16(d, q + 8),
                ..old
            };
            if !supported_type(head.rtype) {
                Some((head, q + 10, Some(unsupported_type_message(head.rtype))))
            } else {
                match rdata_at(head.rtype, old.rdata, d, q + 10, msg) {
                    Some((rd, q2)) => Some((ResourceView {
                        rdata: rd,
                        rdlength: if head.rtype == 2 || head.rtype == 5 { name_rdlength(rd) } else { head.rdlength },
                        cache_timeout: 0,
                        ..head
                    }, q2, None)),
                    None => None,
                }
            }
        },
        None => None,
    }
}

/// The bytes written for a record: name, type, class, time to live, data length and data.
/// The data of an A record is its label bytes then a zero byte; any other data is
/// written as a name.
pub open spec fn resource_bytes(r: ResourceView) -> Seq<u8> {
    data_bytes(r.rname) + u16_bytes(r.rtype) + u16_bytes(r.rclass) + u16_bytes((r.ttl / 65536) as u16)
        + u16_bytes((r.ttl % 65536) as u16) + u16_bytes(r.rdlength) + (if r.rtype == 1 {
        concat_labels(r.rdata.labels, r.rdata.labels.len()) + seq![0u8]
    } else {
        data_bytes(r.rdata)
    })
}

/// A record can be written: the data of a CNAME record has a length byte for each label.
pub open spec fn writable_resource(r: ResourceView) -> bool {
    r.rtype == 5 ==> r.rdata.lengths.len() >= r.rdata.labels.len()
}

/// The server address held by an A record: its IPv4 address, port 53.
pub open spec fn resource_address(r: ResourceView) -> SocketAddress {
    SocketAddress { ip: Ipv4Addr(r.rdata.labels[0][0], r.rdata.labels[1][0], r.rdata.labels[2][0], r.rdata.labels[3][0]), port: 53 }
}

/// An A record holds an IPv4 address in its data.
pub open spec fn address_readable(r: ResourceView) -> bool {
    r.rtype == 1 ==> holds_ipv4(r.rdata)
}

/// The four bytes written for `n` as two 16-bit halves, read back at position `p` after
/// the bytes `a` (with `p` the length of `a`), give `n`.
pub proof fn lemma_be32_of_halves(a: Seq<u8>, n: u32, rest: Seq<u8>, p: int)
    requires
        p == a.len(),
    ensures
        be32(a + u16_bytes((n / 65536) as u16) + u16_bytes((n % 65536) as u16) + rest, p) == n,
{
    let hi = (n / 65536) as u16;
    let lo = (n % 65536) as u16;
    let d = a + u16_bytes(hi) + u16_bytes(lo) + rest;
    let b0 = (hi / 256) as u8;
    let b1 = (hi % 256) as u8;
    let b2 = (lo / 256) as u8;
    let b3 = (lo % 256) as u8;
    assert(d[p] == b0 && d[p + 1] == b1 && d[p + 2] == b2 && d[p + 3] == b3);
    assert(hi as u32 * 65536 + lo as u32 == n) by (bit_vector)
        requires
            hi == (n / 65536) as u16,
            lo == (n % 65536) as u16,
    ;
    assert(b0 as u16 * 256 + b1 as u16 == hi) by (bit_vector)
        requires
            b0 == (hi / 256) as u8,
            b1 == (hi % 256) as u8,
    ;
    assert(b2 as u16 * 256 + b3 as u16 == lo) by (bit_vector)
        requires
            b2 == (lo / 256) as u8,
            b3 == (lo % 256) as u8,
    ;
}

/// The bytes written for a name record (NS or CNAME) whose owner and data are plain
/// names, found after the bytes `a`, read back into an empty record as that record, with
/// the data length recomputed from the data and no cache time; the reading ends where
/// the bytes end.
#[verifier::rlimit(30)]
#[verifier::spinoff_prover]
pub proof fn lemma_resource_at_bytes(a: Seq<u8>, r: ResourceView, rest: Seq<u8>, msg: Seq<u8>)
    requires
        r.rtype == 2 || r.rtype == 5,
        plain_name_data(r.rname),
        plain_name_data(r.rdata),
    ensures
        resource_at(empty_resource(), a + resource_bytes(r) + rest, a.len() as int, msg)
            == Some((ResourceView { rdlength: name_rdlength(r.rdata), cache_timeout: 0, ..r },
                (a.len() + resource_bytes(r).len()) as int, None::<Seq<char>>)),
{
    let d = a + resource_bytes(r) + rest;
    let nb = data_bytes(r.rname);
    let db = data_bytes(r.rdata);
    let hi = u16_bytes((r.ttl / 65536) as u16);
    let lo = u16_bytes((r.ttl % 65536) as u16);
    let t = u16_bytes(r.rtype);
    let c = u16_bytes(r.rclass);
    let l = u16_bytes(r.rdlength);
    let q: int = (a.len() + nb.len()) as int;
    let pre = a + nb + t + c + hi + lo + l;
    assert(pre.len() == q + 10);
    assert(d.len() >= q + 10) by {
        assert(d =~= pre + (db + rest));
    }
    assert(name_at(d, a.len() as int, msg) == Some((r.rname.labels, q))) by {
        let tail = t + c + hi + lo + l + db + rest;
        law_name_roundtrip(r.rname, tail, msg);
        lemma_name_at_shift(a, nb + tail, 0, msg);
        assert(d =~= a + (nb + tail));
    }
    assert(be16(d, q) == r.rtype) by {
        assert(d =~= (a + nb) + t + (c + hi + lo + l + db + rest));
        lemma_be16_of_bytes(a + nb, r.rtype, c + hi + lo + l + db + rest, q);
    }
    assert(be16(d, q + 2) == r.rclass) by {
        assert(d =~= (a + nb + t) + c + (hi + lo + l + db + rest));
        lemma_be16_of_bytes(a + nb + t, r.rclass, hi + lo + l + db + rest, q + 2);
    }
    assert(be32(d, q + 4) == r.ttl) by {
        assert(d =~= (a + nb + t + c) + hi + lo + (l + db + rest));
        lemma_be32_of_halves(a + nb + t + c, r.ttl, l + db + rest, q + 4);
    }
    assert(be16(d, q + 8) == r.rdlength) by {
        assert(d =~= (a + nb + t + c + hi + lo) + l + (db + rest));
        lemma_be16_of_bytes(a + nb + t + c + hi + lo, r.rdlength, db + rest, q + 8);
    }
    assert(name_at(d, q + 10, msg) == Some((r.rdata.labels, q + 10 + db.len()))) by {
        assert(d =~= pre + (db + rest));
        law_name_roundtrip(r.rdata, rest, msg);
        lemma_name_at_shift(pre, db + rest, 0, msg);
    }
    assert(resource_bytes(r).len() == nb.len() + 10 + db.len());
    lemma_plain_name_rebuilt(r.rname);
    lemma_plain_name_rebuilt(r.rdata);
}

/// The data of an A record as reading leaves it: four labels of one byte, each with the
/// length byte 1.
pub open spec fn address_data(v: DataView) -> bool {
    &&& v.labels.len() == 4
    &&& v.lengths == seq![1u8, 1u8, 1u8, 1u8]
    &&& forall|i: int| 0 <= i < 4 ==> #[trigger] v.labels[i].len() == 1
}

/// The bytes written for an A record whose owner is a plain name and whose data is an
/// address as reading leaves it, found after the bytes `a`, read back into an empty record
/// as that record with no cache time; the reading ends one byte before the bytes end, at
/// the zero byte written after the address.
#[verifier::rlimit(30)]
#[verifier::spinoff_prover]
pub proof fn lemma_address_resource_at_bytes(a: Seq<u8>, r: ResourceView, rest: Seq<u8>, msg: Seq<u8>)
    requires
        r.rtype == 1,
        plain_name_data(r.rname),
        address_data(r.rdata),
    ensures
        resource_at(empty_resource(), a + resource_bytes(r) + rest, a.len() as int, msg)
            == Some((ResourceView { cache_timeout: 0, ..r },
                (a.len() + resource_bytes(r).len() - 1) as int, None::<Seq<char>>)),
{
    let d = a + resource_bytes(r) + rest;
    let nb = data_bytes(r.rname);
    let ab = concat_labels(r.rdata.labels, 4) + seq![0u8];
    let hi = u16_bytes((r.ttl / 65536) as u16);
    let lo = u16_bytes((r.ttl % 65536) as u16);
    let t = u16_bytes(r.rtype);
    let c = u16_bytes(r.rclass);
    let l = u16_bytes(r.rdlength);
    let q: int = (a.len() + nb.len()) as int;
    let pre = a + nb + t + c + hi + lo + l;
    assert(pre.len() == q + 10);
    let ls = r.rdata.labels;
    assert(concat_labels(ls, 4) =~= seq![ls[0][0], ls[1][0], ls[2][0], ls[3][0]]) by {
        assert(concat_labels(ls, 1) =~= seq![ls[0][0]]) by {
            assert(concat_labels(ls, 0) =~= Seq::<u8>::empty());
        }
        assert(concat_labels(ls, 2) =~= seq![ls[0][0], ls[1][0]]);
        assert(concat_labels(ls, 3) =~= seq![ls[0][0], ls[1][0], ls[2][0]]);
    }
    assert(d =~= pre + (ab + rest));
    assert(d.len() >= q + 14);
    assert(name_at(d, a.len() as int, msg) == Some((r.rname.labels, q))) by {
        let tail = t + c + hi + lo + l + ab + rest;
        law_name_roundtrip(r.rname, tail, msg);
        lemma_name_at_shift(a, nb + tail, 0, msg);
        assert(d =~= a + (nb + tail));
    }
    assert(be16(d, q) == r.rtype) by {
        assert(d =~= (a + nb) + t + (c + hi + lo + l + ab + rest));
        lemma_be16_of_bytes(a + nb, r.rtype, c + hi + lo + l + ab + rest, q);
    }
    assert(be16(d, q + 2) == r.rclass) by {
        assert(d =~= (a + nb + t) + c + (hi + lo + l + ab + rest));
        lemma_be16_of_bytes(a + nb + t, r.rclass, hi + lo + l + ab + rest, q + 2);
    }
    assert(be32(d, q + 4) == r.ttl) by {
        assert(d =~= (a + nb + t + c) + hi + lo + (l + ab + rest));
        lemma_be32_of_halves(a + nb + t + c, r.ttl, l + ab + rest, q + 4);
    }
    assert(be16(d, q + 8) == r.rdlength) by {
        assert(d =~= (a + nb + t + c + hi + lo) + l + (ab + rest));
        lemma_be16_of_bytes(a + nb + t + c + hi + lo, r.rdlength, ab + rest, q + 8);
    }
    assert(with_ipv4(empty_resource().rdata, d, q + 10) == r.rdata) by {
        let w = with_ipv4(empty_resource().rdata, d, q + 10);
        assert forall|i: int| 0 <= i < 4 implies #[trigger] w.labels[i] == ls[i] by {
            assert(d[q + 10 + i] == ls[i][0]);
            assert(ls[i] =~= seq![ls[i][0]]);
        }
        assert(w.labels =~= ls);
        assert(w.lengths =~= r.rdata.lengths);
    }
    assert(resource_bytes(r).len() == nb.len() + 10 + 5);
    lemma_plain_name_rebuilt(r.rname);
}

/// The data of an SOA record laid out as reading leaves it: the labels of the primary
/// server's name `n1` and of the mailbox's name `n2`, each followed by an empty label with
/// length byte 0, then the five numbers `nums` as four-byte labels without length bytes.
pub open spec fn soa_layout(v: DataView, n1: Seq<Seq<u8>>, n2: Seq<Seq<u8>>, nums: Seq<Seq<u8>>) -> bool {
    &&& crate::wellformed::short_labels(n1)
    &&& crate::wellformed::short_labels(n2)
    &&& nums.len() == 5
    &&& forall|i: int| 0 <= i < 5 ==> #[trigger] nums[i].len() == 4
    &&& v.labels == n1 + seq![Seq::<u8>::empty()] + n2 + seq![Seq::<u8>::empty()] + nums
    &&& v.lengths == label_lengths(n1) + seq![0u8] + label_lengths(n2) + seq![0u8]
}

/// The data of an SOA record as reading leaves it.
pub open spec fn soa_data(v: DataView) -> bool {
    exists|n1: Seq<Seq<u8>>, n2: Seq<Seq<u8>>, nums: Seq<Seq<u8>>| #[trigger] soa_layout(v, n1, n2, nums)
}

/// The bytes written for SOA data laid out as reading leaves it: the two names, each
/// ending with a zero byte, the twenty bytes of the numbers, and a last zero byte.
proof fn lemma_soa_data_bytes(v: DataView, n1: Seq<Seq<u8>>, n2: Seq<Seq<u8>>, nums: Seq<Seq<u8>>)
    requires
        soa_layout(v, n1, n2, nums),
    ensures
        data_bytes(v) == data_bytes(with_name(empty_data(), n1)) + data_bytes(with_name(empty_data(), n2))
            + (nums[0] + nums[1] + nums[2] + nums[3] + nums[4]) + seq![0u8],
        plain_name_data(with_name(empty_data(), n1)),
        plain_name_data(with_name(empty_data(), n2)),
{
    let p1 = with_name(empty_data(), n1);
    let p2 = with_name(empty_data(), n2);
    let w3 = DataView { labels: nums, lengths: Seq::empty() };
    let a = n1.len();
    let b = n2.len();
    crate::wellformed::lemma_short_labels_name(n1);
    crate::wellformed::lemma_short_labels_name(n2);
    assert(p1.labels =~= n1);
    assert(p2.labels =~= n2);
    assert(p1.lengths =~= label_lengths(n1));
    assert(p2.lengths =~= label_lengths(n2));
    assert(labels_bytes(v, a) == labels_bytes(v, 0) + labels_bytes(p1, a)) by {
        assert forall|i: int| 0 <= i < a implies v.labels[0 + i] == #[trigger] p1.labels[i]
            && ((0 + i < v.lengths.len()) <==> (i < p1.lengths.len()))
            && (i < p1.lengths.len() ==> v.lengths[0 + i] == p1.lengths[i]) by {
            assert(v.labels[i] == n1[i]);
            assert(v.lengths[i] == label_lengths(n1)[i]);
        }
        lemma_labels_bytes_shift(v, p1, 0, a);
    }
    assert(labels_bytes(v, 0) =~= Seq::<u8>::empty());
    assert(v.labels[a as int] == Seq::<u8>::empty());
    assert(v.lengths[a as int] == 0);
    assert(labels_bytes(v, a + 1) =~= data_bytes(p1));
    assert(labels_bytes(v, a + 1 + b) == labels_bytes(v, a + 1) + labels_bytes(p2, b)) by {
        assert forall|i: int| 0 <= i < b implies v.labels[(a + 1) + i] == #[trigger] p2.labels[i]
            && (((a + 1) + i < v.lengths.len()) <==> (i < p2.lengths.len()))
            && (i < p2.lengths.len() ==> v.lengths[(a + 1) + i] == p2.lengths[i]) by {
            assert(v.labels[a + 1 + i] == n2[i]);
            assert(v.lengths[a + 1 + i] == label_lengths(n2)[i]);
        }
        lemma_labels_bytes_shift(v, p2, a + 1, b);
    }
    assert(v.labels[(a + 1 + b) as int] == Seq::<u8>::empty());
    assert(v.lengths[(a + 1 + b) as int] == 0);
    assert(labels_bytes(v, a + b + 2) =~= data_bytes(p1) + data_bytes(p2));
    assert(labels_bytes(v, a + b + 7) == labels_bytes(v, a + b + 2) + labels_bytes(w3, 5)) by {
        assert forall|i: int| 0 <= i < 5 implies v.labels[(a + b + 2) + i] == #[trigger] w3.labels[i]
            && (((a + b + 2) + i < v.lengths.len()) <==> (i < w3.lengths.len()))
            && (i < w3.lengths.len() ==> v.lengths[(a + b + 2) + i] == w3.lengths[i]) by {
            assert(v.labels[a + b + 2 + i] == nums[i]);
        }
        lemma_labels_bytes_shift(v, w3, a + b + 2, 5);
    }
    assert(labels_bytes(w3, 5) =~= nums[0] + nums[1] + nums[2] + nums[3] + nums[4]) by {
        assert(labels_bytes(w3, 0) =~= Seq::<u8>::empty());
        assert(labels_bytes(w3, 1) =~= nums[0]);
        assert(labels_bytes(w3, 2) =~= nums[0] + nums[1]);
        assert(labels_bytes(w3, 3) =~= nums[0] + nums[1] + nums[2]);
        assert(labels_bytes(w3, 4) =~= nums[0] + nums[1] + nums[2] + nums[3]);
    }
    assert(v.labels.len() == a + b + 7);
}

/// The five numbers of SOA data written one after the other, found after the bytes `a`,
/// are read back as those numbers.
proof fn lemma_soa_numbers_at(a: Seq<u8>, nums: Seq<Seq<u8>>, rest: Seq<u8>)
    requires
        nums.len() == 5,
        forall|i: int| 0 <= i < 5 ==> #[trigger] nums[i].len() == 4,
    ensures
        soa_numbers(a + (nums[0] + nums[1] + nums[2] + nums[3] + nums[4]) + rest, a.len() as int) == nums,
{
    let nb = nums[0] + nums[1] + nums[2] + nums[3] + nums[4];
    let d = a + nb + rest;
    let q = a.len() as int;
    assert(nums[0].len() == 4 && nums[1].len() == 4 && nums[2].len() == 4 && nums[3].len() == 4 && nums[4].len() == 4);
    assert forall|k: int| 0 <= k < 5 implies #[trigger] soa_numbers(d, q)[k] == nums[k] by {
        assert(d.subrange(q + 4 * k, q + 4 * k + 4) =~= nb.subrange(4 * k, 4 * k + 4));
        if k == 0 {
            assert(nb.subrange(0, 4) =~= nums[0]);
        } else if k == 1 {
            assert(nb.subrange(4, 8) =~= nums[1]);
        } else if k == 2 {
            assert(nb.subrange(8, 12) =~= nums[2]);
        } else if k == 3 {
            assert(nb.subrange(12, 16) =~= nums[3]);
        } else {
            assert(nb.subrange(16, 20) =~= nums[4]);
        }
    }
    assert(soa_numbers(d, q) =~= nums);
}

/// The two names of SOA data written one after the other, found after the bytes `pre`,
/// are read back as those names, ending where their bytes end, with the numbers after.
proof fn lemma_soa_names_at(pre: Seq<u8>, n1: Seq<Seq<u8>>, n2: Seq<Seq<u8>>, tail: Seq<u8>, msg: Seq<u8>)
    requires
        plain_name_data(with_name(empty_data(), n1)),
        plain_name_data(with_name(empty_data(), n2)),
        tail.len() >= 20,
    ensures
        ({
            let db1 = data_bytes(with_name(empty_data(), n1));
            let db2 = data_bytes(with_name(empty_data(), n2));
            soa_at(pre + (db1 + (db2 + tail)), pre.len() as int, msg)
                == Some((n1, n2, (pre.len() + db1.len() + db2.len()) as int))
        }),
{
    let p1 = with_name(empty_data(), n1);
    let p2 = with_name(empty_data(), n2);
    let db1 = data_bytes(p1);
    let db2 = data_bytes(p2);
    let d = pre + (db1 + (db2 + tail));
    let q1 = (pre.len() + db1.len()) as int;
    law_name_roundtrip(p1, db2 + tail, msg);
    lemma_name_at_shift(pre, db1 + (db2 + tail), 0, msg);
    assert(p1.labels =~= n1);
    law_name_roundtrip(p2, tail, msg);
    lemma_name_at_shift(pre + db1, db2 + tail, 0, msg);
    assert(d =~= (pre + db1) + (db2 + tail));
    assert(p2.labels =~= n2);
}

/// The bytes written for an SOA record whose owner is a plain name and whose data is laid
/// out as reading leaves it, found after the bytes `a`, read back into an empty record as
/// that record with no cache time; the reading ends one byte before the bytes end, at the
/// zero byte written after the numbers.
#[verifier::rlimit(60)]
#[verifier::spinoff_prover]
pub proof fn lemma_soa_resource_at_bytes(a: Seq<u8>, r: ResourceView, rest: Seq<u8>, msg: Seq<u8>)
    requires
        r.rtype == 6,
        plain_name_data(r.rname),
        soa_data(r.rdata),
    ensures
        resource_at(empty_resource(), a + resource_bytes(r) + rest, a.len() as int, msg)
            == Some((ResourceView { cache_timeout: 0, ..r },
                (a.len() + resource_bytes(r).len() - 1) as int, None::<Seq<char>>)),
{
    let v = r.rdata;
    let (n1, n2, nums) = choose|n1: Seq<Seq<u8>>, n2: Seq<Seq<u8>>, nums: Seq<Seq<u8>>| soa_layout(v, n1, n2, nums);
    let p1 = with_name(empty_data(), n1);
    let p2 = with_name(empty_data(), n2);
    let db1 = data_bytes(p1);
    let db2 = data_bytes(p2);
    let nb_nums = nums[0] + nums[1] + nums[2] + nums[3] + nums[4];
    let d = a + resource_bytes(r) + rest;
    let nb = data_bytes(r.rname);
    let hi = u16_bytes((r.ttl / 65536) as u16);
    let lo = u16_bytes((r.ttl % 65536) as u16);
    let t = u16_bytes(r.rtype);
    let c = u16_bytes(r.rclass);
    let l = u16_bytes(r.rdlength);
    let q: int = (a.len() + nb.len()) as int;
    let pre = a + nb + t + c + hi + lo + l;
    let tail = nb_nums + seq![0u8] + rest;
    let q1 = q + 10 + db1.len();
    let q2 = q1 + db2.len();
    assert(pre.len() == q + 10);
    assert(data_bytes(v) == db1 + db2 + nb_nums + seq![0u8] && plain_name_data(p1) && plain_name_data(p2)) by {
        lemma_soa_data_bytes(v, n1, n2, nums);
    }
    assert(nb_nums.len() == 20) by {
        assert(nums[0].len() == 4 && nums[1].len() == 4 && nums[2].len() == 4 && nums[3].len() == 4 && nums[4].len() == 4);
    }
    assert(d == pre + (db1 + (db2 + tail))) by {
        assert(d =~= pre + (db1 + (db2 + tail)));
    }
    assert(resource_bytes(r).len() == nb.len() + 10 + data_bytes(v).len());
    assert(q2 + 20 == a.len() + resource_bytes(r).len() - 1);
    assert(name_at(d, a.len() as int, msg) == Some((r.rname.labels, q))) by {
        let rt = t + c + hi + lo + l + data_bytes(v) + rest;
        law_name_roundtrip(r.rname, rt, msg);
        lemma_name_at_shift(a, nb + rt, 0, msg);
        assert(d =~= a + (nb + rt));
    }
    assert(be16(d, q) == r.rtype) by {
        assert(d =~= (a + nb) + t + (c + hi + lo + l + data_bytes(v) + rest));
        lemma_be16_of_bytes(a + nb, r.rtype, c + hi + lo + l + data_bytes(v) + rest, q);
    }
    assert(be16(d, q + 2) == r.rclass) by {
        assert(d =~= (a + nb + t) + c + (hi + lo + l + data_bytes(v) + rest));
        lemma_be16_of_bytes(a + nb + t, r.rclass, hi + lo + l + data_bytes(v) + rest, q + 2);
    }
    assert(be32(d, q + 4) == r.ttl) by {
        assert(d =~= (a + nb + t + c) + hi + lo + (l + data_bytes(v) + rest));
        lemma_be32_of_halves(a + nb + t + c, r.ttl, l + data_bytes(v) + rest, q + 4);
    }
    assert(be16(d, q + 8) == r.rdlength) by {
        assert(d =~= (a + nb + t + c + hi + lo) + l + (data_bytes(v) + rest));
        lemma_be16_of_bytes(a + nb + t + c + hi + lo, r.rdlength, data_bytes(v) + rest, q + 8);
    }
    assert(soa_at(d, q + 10, msg) == Some((n1, n2, q2))) by {
        lemma_soa_names_at(pre, n1, n2, tail, msg);
    }
    assert(rdata_at(6, empty_resource().rdata, d, q + 10, msg) == Some((v, q2 + 20))) by {
        assert(soa_numbers(d, q2) == nums) by {
            lemma_soa_numbers_at(pre + db1 + db2, nums, seq![0u8] + rest);
            assert(d =~= (pre + db1 + db2) + nb_nums + (seq![0u8] + rest));
        }
        let w = with_soa(empty_resource().rdata, d, n1, n2, q2);
        assert(w.labels =~= v.labels);
        assert(w.lengths =~= v.lengths);
    }
    lemma_plain_name_rebuilt(r.rname);
}

/// Reading back the bytes that `Resource::write` writes for a name record (NS or CNAME)
/// whose owner and data are plain names gives the record written, but for the data
/// length, which is recomputed from the data, and the cache time, which reads as 0; the
/// reading ends where the bytes end. (An A record does not read back: its four address
/// bytes are followed by a zero byte that its data length does not count.)
pub proof fn law_resource_roundtrip(r: ResourceView, rest: Seq<u8>, msg: Seq<u8>)
    requires
        r.rtype == 2 || r.rtype == 5,
        plain_name_data(r.rname),
        plain_name_data(r.rdata),
    ensures
        resource_at(empty_resource(), resource_bytes(r) + rest, 0, msg)
            == Some((ResourceView { rdlength: name_rdlength(r.rdata), cache_timeout: 0, ..r },
                resource_bytes(r).len() as int, None::<Seq<char>>)),
{
    lemma_resource_at_bytes(Seq::empty(), r, rest, msg);
    assert(Seq::<u8>::empty() + resource_bytes(r) + rest =~= resource_bytes(r) + rest);
}

impl Resource {
    /// A record with empty names and every number zero.
    pub fn new() -> (r: Resource)
        ensures
            r@ == empty_resource(),
    {
        Resource {
            rname: Data::new(),
            rtype: 0,
            rclass: 0,
            ttl: 0,
            rdlength: 0,
            rdata: Data::new(),
            cache_timeout: 0,
        }
    }

    /// A copy with the same value.
    pub fn deep_copy(&self) -> (r: Resource)
        ensures
            r@ == self@,
    {
        Resource {
            rname: self.rname.deep_copy(),
            rtype: self.rtype,
            rclass: self.rclass,
            ttl: self.ttl,
            rdlength: self.rdlength,
            rdata: self.rdata.deep_copy(),
            cache_timeout: self.cache_timeout,
        }
    }

    /// Reads a record from `reader`; names may point into `msg_copy`, the whole message.
    /// A record of a type whose data cannot be read gives an error, after its fixed
    /// fields have been read.
    pub fn read_in(&mut self, reader: &mut Reader, msg_copy: &mut Vec<u8>) -> (r: Result<(), String>)
        requires
            resource_at(old(self)@, old(reader).data@, old(reader).pos as int, old(msg_copy)@) is Some,
        ensures
            ({
                let (v, q, e) = resource_at(old(self)@, old(reader).data@, old(reader).pos as int, old(msg_copy)@).unwrap();
                &&& final(self)@ == v
                &&& final(reader).pos == q
                &&& (r is Ok <==> e is None)
                &&& (r matches Err(s) ==> e == Some(s@))
            }),
            final(reader).data@ == old(reader).data@,
            final(msg_copy)@ == old(msg_copy)@,
    {
        let ghost d = reader.data@;
        let ghost p = reader.pos as int;
        self.rname = Data::new();
        self.rname.read_hostname(reader, msg_copy);
        self.rtype = reader.read_be_u16();
        self.rclass = reader.read_be_u16();
        self.ttl = reader.read_be_u32();
        self.rdlength = reader.read_be_u16();
        match self.rtype {
            0x0001 => { self.rdata.read_ipv4_addr(reader) },
            0x0002 => { self.rdata.read_hostname(reader, msg_copy) },
            0x0005 => { self.rdata.read_hostname(reader, msg_copy) },
            0x0006 => { self.rdata.read_soa(reader, msg_copy) },
            0x000c => { return Err(String::from_str("Error: Resource Type (12) not supported")); },
            0x000f => { return Err(String::from_str("Error: Resource Type (15) not supported")); },
            0x0010 => { return Err(String::from_str("Error: Resource Type (16) not supported")); },
            0x0011 => { return Err(String::from_str("Error: Resource Type (17) not supported")); },
            0x0012 => { return Err(String::from_str("Error: Resource Type (18) not supported")); },
            0x0018 => { return Err(String::from_str("Error: Resource Type (24) not supported")); },
            0x0019 => { return Err(String::from_str("Error: Resource Type (25) not supported")); },
            0x001c => { self.rdata.read_ipv6_addr(reader) },
            _ => { return Err(String::from_str("Error: Resource Type (?) not supported")); },
        }
        if (self.rtype == 2) || (self.rtype == 5) {
            let mut rdlength: u16 = 0;
            let mut i: usize = 0;
            while i < self.rdata.length.len()
                invariant
                    i <= self.rdata@.lengths.len(),
                    rdlength == lengths_sum(self.rdata@.lengths, i as nat),
                decreases self.rdata@.lengths.len() - i,
            {
                rdlength = rdlength.wrapping_add(self.rdata.length[i] as u16 + 1);
                i = i + 1;
            }
            self.rdlength = rdlength.wrapping_add(1);
        }
        self.cache_timeout = 0;
        Ok(())
    }

    /// The bytes of the record: name, type, class, time to live, data length and data.
    pub fn write(&mut self) -> (buf: Vec<u8>)
        requires
            writable_resource(old(self)@),
        ensures
            buf@ == resource_bytes(old(self)@),
            final(self)@ == old(self)@,
    {
        let mut resource_buffer: Vec<u8> = Vec::new();
        let mut name = self.rname.write();
        resource_buffer.append(&mut name);
        split_u16(self.rtype, &mut resource_buffer);
        split_u16(self.rclass, &mut resource_buffer);
        let ttl = self.ttl;
        assert(((ttl & 0xFFFF0000) >> 16) as u16 == (ttl / 65536) as u16) by (bit_vector);
        assert(((ttl & 0x0000FFFF) >> 0) as u16 == (ttl % 65536) as u16) by (bit_vector);
        let mut temp_buffer: u16;
        temp_buffer = ((self.ttl & 0xFFFF0000) >> 16) as u16;
        split_u16(temp_buffer, &mut resource_buffer);
        temp_buffer = ((self.ttl & 0x0000FFFF) >> 0) as u16;
        split_u16(temp_buffer, &mut resource_buffer);
        split_u16(self.rdlength, &mut resource_buffer);
        let ghost before = resource_buffer@;
        if self.rtype == 1 {
            let mut rd = self.rdata.write_ip_addr();
            resource_buffer.append(&mut rd);
        } else if self.rtype == 5 {
            let mut rd = self.rdata.write_cname();
            resource_buffer.append(&mut rd);
        } else {
            let mut rd = self.rdata.write();
            resource_buffer.append(&mut rd);
        }
        assert(resource_buffer@ =~= resource_bytes(self@));
        resource_buffer
    }

    /// The address of the server named by an A record (port 53); `None` for other types.
    pub fn ip_addr(&mut self) -> (r: Option<SocketAddress>)
        requires
            address_readable(old(self)@),
        ensures
            final(self)@ == old(self)@,
            old(self)@.rtype == 1 ==> r == Some(resource_address(old(self)@)),
            old(self)@.rtype != 1 ==> r is None,
    {
        if self.rtype == 0x0001 {
            let ip_addr = self.rdata.get_ipv4_addr();
            let sock = SocketAddress {
                ip: Ipv4Addr(ip_addr[0], ip_addr[1], ip_addr[2], ip_addr[3]),
                port: 53,
            };
            Some(sock)
        } else {
            None
        }
    }
}

} // verus!
