use vstd::prelude::*;
use crate::reader::be16;
use crate::data::{DataView, pointer_labels, name_in_message, name_at, soa_at};
use crate::header::{header_from, zero_header};
use crate::question::{QuestionView, question_at};
use crate::resource::{ResourceView, rdata_at, resource_at, supported_type};
use crate::message::{Message, questions_at, resources_at, message_at, copy_bytes};

verus! {

/// Where the data of a record of type `t` read at `p` ends; `None` where it runs past
/// the end of `d`.
pub open spec fn rdata_extent(t: u16, d: Seq<u8>, p: int, msg: Seq<u8>) -> Option<int> {
    if t == 1 {
        if p + 4 <= d.len() { Some(p + 4) } else { None }
    } else if t == 2 || t == 5 {
        match name_at(d, p, msg) {
            Some((_, q)) => Some(q),
            None => None,
        }
    } else if t == 6 {
        match soa_at(d, p, msg) {
            Some((_, _, q)) => Some(q + 20),
            None => None,
        }
    } else if t == 28 {
        if p + 16 <= d.len() { Some(p + 16) } else { None }
    } else {
        None
    }
}

/// Where a record read at `p` ends, and whether its type stops the reading with an error;
/// `None` where it runs past the end of `d`.
pub open spec fn resource_extent(d: Seq<u8>, p: int, msg: Seq<u8>) -> Option<(int, bool)> {
    match name_at(d, p, msg) {
        Some((_, q)) => if q + 10 > d.len() {
            None
        } else if !supported_type(be16(d, q)) {
            Some((q + 10, true))
        } else {
            match rdata_extent(be16(d, q), d, q + 10, msg) {
                Some(q2) => Some((q2, false)),
                None => None,
            }
        },
        None => None,
    }
}

/// Where questions `i` to `n - 1` read at `p` end; `None` where they run past the end of `d`.
pub open spec fn questions_extent(i: nat, n: nat, d: Seq<u8>, p: int, msg: Seq<u8>) -> Option<int>
    decreases n - i,
{
    if i >= n {
        Some(p)
    } else {
        match question_at(d, p, msg) {
            Some((_, p2)) => questions_extent(i + 1, n, d, p2, msg),
            None => None,
        }
    }
}

/// Where records `i` to `n - 1` read at `p` end, and whether one of them stops the reading
/// with an error; `None` where they run past the end of `d`.
pub open spec fn resources_extent(i: nat, n: nat, d: Seq<u8>, p: int, msg: Seq<u8>) -> Option<(int, bool)>
    decreases n - i,
{
    if i >= n {
        Some((p, false))
    } else {
        match resource_extent(d, p, msg) {
            Some((p2, err)) => if err {
                Some((p2, true))
            } else {
                resources_extent(i + 1, n, d, p2, msg)
            },
            None => None,
        }
    }
}

proof fn lemma_rdata_extent(t: u16, rd: DataView, d: Seq<u8>, p: int, msg: Seq<u8>)
    ensures
        rdata_at(t, rd, d, p, msg) is Some <==> rdata_extent(t, d, p, msg) is Some,
        rdata_at(t, rd, d, p, msg) is Some ==> rdata_at(t, rd, d, p, msg).unwrap().1 == rdata_extent(t, d, p, msg).unwrap(),
{
}

proof fn lemma_resource_extent(old: ResourceView, d: Seq<u8>, p: int, msg: Seq<u8>)
    ensures
        resource_at(old, d, p, msg) is Some <==> resource_extent(d, p, msg) is Some,
        resource_at(old, d, p, msg) matches Some((_, q, e)) ==> resource_extent(d, p, msg) == Some((q, e is Some)),
{
    match name_at(d, p, msg) {
        Some((ls, q)) => {
            if q + 10 <= d.len() {
                lemma_rdata_extent(be16(d, q), old.rdata, d, q + 10, msg);
            }
        },
        None => {},
    }
}

proof fn lemma_questions_extent(qs: Seq<QuestionView>, i: nat, n: nat, d: Seq<u8>, p: int, msg: Seq<u8>)
    ensures
        questions_at(qs, i, n, d, p, msg) is Some <==> questions_extent(i, n, d, p, msg) is Some,
        questions_at(qs, i, n, d, p, msg) is Some ==> questions_at(qs, i, n, d, p, msg).unwrap().1 == questions_extent(i, n, d, p, msg).unwrap(),
    decreases n - i,
{
    if i < n {
        match question_at(d, p, msg) {
            Some((q, p2)) => {
                lemma_questions_extent(qs.push(crate::question::empty_question()).update(i as int, q), i + 1, n, d, p2, msg);
            },
            None => {},
        }
    }
}

proof fn lemma_resources_extent(rs: Seq<ResourceView>, i: nat, n: nat, d: Seq<u8>, p: int, msg: Seq<u8>)
    ensures
        resources_at(rs, i, n, d, p, msg) is Some <==> resources_extent(i, n, d, p, msg) is Some,
        resources_at(rs, i, n, d, p, msg) matches Some((_, q, e)) ==> resources_extent(i, n, d, p, msg) == Some((q, e is Some)),
    decreases n - i,
{
    if i < n {
        let rs1 = rs.push(crate::resource::empty_resource());
        lemma_resource_extent(rs1[i as int], d, p, msg);
        match resource_at(rs1[i as int], d, p, msg) {
            Some((r, p2, e)) => {
                if e is None {
                    lemma_resources_extent(rs1.update(i as int, r), i + 1, n, d, p2, msg);
                }
            },
            None => {},
        }
    }
}

/// Whether the name stored at `index` of `msg` ends.
pub fn message_name_ends(msg: &Vec<u8>, index: usize) -> (r: bool)
    ensures
        r == name_in_message(msg@, index as int) is Some,
{
    let mut idx: usize = index;
    let mut fuel: usize = msg.len();
    loop
        invariant
            msg@.len() == msg.len(),
            (name_in_message(msg@, index as int) is Some) == (pointer_labels(msg@, idx as int, fuel as nat) is Some),
        decreases fuel,
    {
        if fuel == 0 || idx >= msg.len() {
            return false;
        }
        let b = msg[idx];
        if b == 0 {
            return true;
        }
        if b >= 0xc0 {
            if idx + 1 >= msg.len() {
                return false;
            }
            idx = ((b - 0xc0) as usize) * 256 + msg[idx + 1] as usize;
        } else {
            let n = b as usize;
            if n > msg.len() - idx - 1 {
                return false;
            }
            idx = idx + 1 + n;
        }
        fuel = fuel - 1;
    }
}

/// Where the name read from `d` at `p` ends; `None` where it does not end within `d`.
pub fn name_end(d: &Vec<u8>, p: usize, msg: &Vec<u8>) -> (r: Option<usize>)
    ensures
        r is Some <==> name_at(d@, p as int, msg@) is Some,
        r matches Some(q) ==> q == name_at(d@, p as int, msg@).unwrap().1,
{
    let mut idx: usize = p;
    loop
        invariant
            d@.len() == d.len(),
            (name_at(d@, p as int, msg@) is Some) == (name_at(d@, idx as int, msg@) is Some),
            name_at(d@, p as int, msg@) is Some ==> name_at(d@, p as int, msg@).unwrap().1 == name_at(d@, idx as int, msg@).unwrap().1,
        decreases d@.len() - idx,
    {
        if idx >= d.len() {
            return None;
        }
        let b = d[idx];
        if b == 0 {
            return Some(idx + 1);
        }
        if b >= 0xc0 {
            if idx + 1 >= d.len() {
                return None;
            }
            let index: usize = ((b - 0xc0) as usize) * 256 + d[idx + 1] as usize;
            if message_name_ends(msg, index) {
                return Some(idx + 2);
            } else {
                return None;
            }
        }
        let n = b as usize;
        if n > d.len() - idx - 1 {
            return None;
        }
        idx = idx + 1 + n;
    }
}

/// Where the data of a record of type `t` read from `d` at `p` ends.
fn rdata_end(t: u16, d: &Vec<u8>, p: usize, msg: &Vec<u8>) -> (r: Option<usize>)
    ensures
        r is Some <==> rdata_extent(t, d@, p as int, msg@) is Some,
        r matches Some(q) ==> q == rdata_extent(t, d@, p as int, msg@).unwrap(),
{
    if t == 1 {
        if p <= d.len() && 4 <= d.len() - p { Some(p + 4) } else { None }
    } else if t == 2 || t == 5 {
        name_end(d, p, msg)
    } else if t == 6 {
        match name_end(d, p, msg) {
            Some(q1) => match name_end(d, q1, msg) {
                Some(q2) => if q2 <= d.len() && 20 <= d.len() - q2 { Some(q2 + 20) } else { None },
                None => None,
            },
            None => None,
        }
    } else if t == 28 {
        if p <= d.len() && 16 <= d.len() - p { Some(p + 16) } else { None }
    } else {
        None
    }
}

/// Where the record read from `d` at `p` ends, and whether its type stops the reading.
fn resource_end(d: &Vec<u8>, p: usize, msg: &Vec<u8>) -> (r: Option<(usize, bool)>)
    ensures
        r is Some <==> resource_extent(d@, p as int, msg@) is Some,
        r matches Some((q, e)) ==> resource_extent(d@, p as int, msg@) == Some((q as int, e)),
{
    match name_end(d, p, msg) {
        Some(q) => {
            if q > d.len() || 10 > d.len() - q {
                return None;
            }
            let t: u16 = d[q] as u16 * 256 + d[q + 1] as u16;
            if !(t == 1 || t == 2 || t == 5 || t == 6 || t == 28) {
                return Some((q + 10, true));
            }
            match rdata_end(t, d, q + 10, msg) {
                Some(q2) => Some((q2, false)),
                None => None,
            }
        },
        None => None,
    }
}

/// Where `n` questions read from `d` at `p` end.
fn questions_end(n: u16, d: &Vec<u8>, p: usize, msg: &Vec<u8>) -> (r: Option<usize>)
    ensures
        r is Some <==> questions_extent(0, n as nat, d@, p as int, msg@) is Some,
        r matches Some(q) ==> q == questions_extent(0, n as nat, d@, p as int, msg@).unwrap(),
{
    let mut i: u16 = 0;
    let mut pos: usize = p;
    while i < n
        invariant
            i <= n,
            d@.len() == d.len(),
            (questions_extent(0, n as nat, d@, p as int, msg@) is Some) == (questions_extent(i as nat, n as nat, d@, pos as int, msg@) is Some),
            questions_extent(0, n as nat, d@, p as int, msg@) is Some ==> questions_extent(0, n as nat, d@, p as int, msg@).unwrap() == questions_extent(i as nat, n as nat, d@, pos as int, msg@).unwrap(),
        decreases n - i,
    {
        match name_end(d, pos, msg) {
            Some(q) => {
                if q > d.len() || 4 > d.len() - q {
                    return None;
                }
                pos = q + 4;
            },
            None => {
                return None;
            },
        }
        i = i + 1;
    }
    Some(pos)
}

/// Where `n` records read from `d` at `p` end, and whether one stops the reading.
fn resources_end(n: u16, d: &Vec<u8>, p: usize, msg: &Vec<u8>) -> (r: Option<(usize, bool)>)
    ensures
        r is Some <==> resources_extent(0, n as nat, d@, p as int, msg@) is Some,
        r matches Some((q, e)) ==> resources_extent(0, n as nat, d@, p as int, msg@) == Some((q as int, e)),
{
    let mut i: u16 = 0;
    let mut pos: usize = p;
    while i < n
        invariant
            i <= n,
            resources_extent(0, n as nat, d@, p as int, msg@) == resources_extent(i as nat, n as nat, d@, pos as int, msg@),
        decreases n - i,
    {
        match resource_end(d, pos, msg) {
            Some((q, err)) => {
                if err {
                    return Some((q, true));
                }
                pos = q;
            },
            None => {
                return None;
            },
        }
        i = i + 1;
    }
    Some((pos, false))
}

impl Message {
    /// Whether `read_in` can read the first `length` bytes of `data` into this message to the
    /// end, or to a record whose type stops it, without running past the end of the bytes.
    pub fn can_read(&self, data: &[u8], length: usize) -> (r: bool)
        ensures
            r == (length <= data@.len() && message_at(self@, data@.take(length as int)) is Some),
    {
        if length > data.len() || length < 12 {
            return false;
        }
        let mut d: Vec<u8> = Vec::new();
        let mut i: usize = 0;
        while i < length
            invariant
                i <= length,
                length <= data@.len(),
                d@ == data@.take(i as int),
            decreases length - i,
        {
            d.push(data[i]);
            i = i + 1;
            assert(d@ =~= data@.take(i as int));
        }
        let mut msg = copy_bytes(&self.msg_copy);
        let mut tail = copy_bytes(&d);
        msg.append(&mut tail);
        let ghost h = header_from(zero_header(), d@, 0);
        let qdcount: u16 = d[4] as u16 * 256 + d[5] as u16;
        let ancount: u16 = d[6] as u16 * 256 + d[7] as u16;
        let nscount: u16 = d[8] as u16 * 256 + d[9] as u16;
        let arcount: u16 = d[10] as u16 * 256 + d[11] as u16;
        proof {
            lemma_questions_extent(self@.questions, 0, qdcount as nat, d@, 12, msg@);
        }
        let p1 = match questions_end(qdcount, &d, 12, &msg) {
            Some(p1) => p1,
            None => {
                return false;
            },
        };
        proof {
            lemma_resources_extent(self@.answers, 0, ancount as nat, d@, p1 as int, msg@);
        }
        let p2 = match resources_end(ancount, &d, p1, &msg) {
            Some((p2, err)) => {
                if err {
                    return true;
                }
                p2
            },
            None => {
                return false;
            },
        };
        proof {
            lemma_resources_extent(self@.authority, 0, nscount as nat, d@, p2 as int, msg@);
        }
        let p3 = match resources_end(nscount, &d, p2, &msg) {
            Some((p3, err)) => {
                if err {
                    return true;
                }
                p3
            },
            None => {
                return false;
            },
        };
        proof {
            lemma_resources_extent(self@.additional, 0, arcount as nat, d@, p3 as int, msg@);
        }
        match resources_end(arcount, &d, p3, &msg) {
            Some(_) => true,
            None => false,
        }
    }
}

} // verus!
