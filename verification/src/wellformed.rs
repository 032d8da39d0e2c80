use vstd::prelude::*;
use crate::data::{empty_data, with_name, with_soa, with_ipv4, with_ipv6, label_lengths, name_at,
    pointer_labels, soa_numbers, consistent_data, name_data, plain_name_data, holds_ipv4};
use crate::question::{QuestionView, question_at, empty_question};
use crate::resource::{ResourceView, resource_at, empty_resource, writable_resource};
use crate::message::{MessageView, questions_at, resources_at, message_at, empty_message, writable_message};

verus! {

/// A record as reading a message leaves it: its name is a name, its data is consistent,
/// an A record holds an address and the data of a CNAME record is a name.
pub open spec fn wf_record(r: ResourceView) -> bool {
    &&& name_data(r.rname)
    &&& consistent_data(r.rdata)
    &&& r.rtype == 1 ==> holds_ipv4(r.rdata)
    &&& r.rtype == 5 ==> name_data(r.rdata)
}

/// A question as reading a message leaves it: its name is a name.
pub open spec fn wf_question(q: QuestionView) -> bool {
    name_data(q.qname)
}

/// Every record of `rs` is well formed.
pub open spec fn wf_records(rs: Seq<ResourceView>) -> bool {
    forall|i: int| 0 <= i < rs.len() ==> #[trigger] wf_record(rs[i])
}

/// A message as reading one to its end leaves it: each section holds at least as many
/// entries as the header counts, and every question and record is well formed.
pub open spec fn wf_message(m: MessageView) -> bool {
    &&& m.header.qdcount <= m.questions.len()
    &&& m.header.ancount <= m.answers.len()
    &&& m.header.nscount <= m.authority.len()
    &&& m.header.arcount <= m.additional.len()
    &&& forall|i: int| 0 <= i < m.questions.len() ==> #[trigger] wf_question(m.questions[i])
    &&& wf_records(m.answers)
    &&& wf_records(m.authority)
    &&& wf_records(m.additional)
}

/// Every label holds at least one byte and fewer than 0xc0.
pub open spec fn short_labels(ls: Seq<Seq<u8>>) -> bool {
    forall|i: int| 0 <= i < ls.len() ==> 0 < #[trigger] ls[i].len() < 0xc0
}

proof fn lemma_pointer_labels_short(msg: Seq<u8>, idx: int, fuel: nat)
    ensures
        pointer_labels(msg, idx, fuel) matches Some(ls) ==> short_labels(ls),
    decreases fuel,
{
    if fuel > 0 && 0 <= idx < msg.len() && msg[idx] != 0 {
        if msg[idx] >= 0xc0 {
            if idx + 1 < msg.len() {
                lemma_pointer_labels_short(msg, (msg[idx] - 0xc0) * 256 + msg[idx + 1], (fuel - 1) as nat);
            }
        } else {
            let n = msg[idx] as int;
            if idx + 1 + n <= msg.len() {
                lemma_pointer_labels_short(msg, idx + 1 + n, (fuel - 1) as nat);
                if let Some(rest) = pointer_labels(msg, idx + 1 + n, (fuel - 1) as nat) {
                    let ls = seq![msg.subrange(idx + 1, idx + 1 + n)] + rest;
                    assert forall|i: int| 0 <= i < ls.len() implies 0 < #[trigger] ls[i].len() < 0xc0 by {
                        if i > 0 {
                            assert(ls[i] == rest[i - 1]);
                        }
                    }
                }
            }
        }
    }
}

/// Every label of a name read from a message holds at least one byte and fewer than 0xc0.
pub proof fn lemma_name_labels_short(d: Seq<u8>, p: int, msg: Seq<u8>)
    ensures
        name_at(d, p, msg) matches Some((ls, q)) ==> short_labels(ls) && 0 <= p < q <= d.len(),
    decreases d.len() - p,
{
    if 0 <= p < d.len() && d[p] != 0 {
        if d[p] >= 0xc0 {
            if p + 1 < d.len() {
                lemma_pointer_labels_short(msg, (d[p] - 0xc0) * 256 + d[p + 1], msg.len());
            }
        } else {
            let n = d[p] as int;
            if p + 1 + n <= d.len() {
                lemma_name_labels_short(d, p + 1 + n, msg);
                if let Some((rest, q)) = name_at(d, p + 1 + n, msg) {
                    let ls = seq![d.subrange(p + 1, p + 1 + n)] + rest;
                    assert forall|i: int| 0 <= i < ls.len() implies 0 < #[trigger] ls[i].len() < 0xc0 by {
                        if i > 0 {
                            assert(ls[i] == rest[i - 1]);
                        }
                    }
                }
            }
        }
    }
}

/// Labels of one byte or more and fewer than 0xc0, taken alone with their length bytes,
/// make a plain name.
pub proof fn lemma_short_labels_name(ls: Seq<Seq<u8>>)
    requires
        short_labels(ls),
    ensures
        name_data(with_name(empty_data(), ls)),
        plain_name_data(with_name(empty_data(), ls)),
{
    let v = with_name(empty_data(), ls);
    assert(v.labels =~= ls);
    assert(v.lengths =~= label_lengths(ls));
    assert forall|i: int| 0 <= i < v.lengths.len() implies #[trigger] v.lengths[i] as int == v.labels[i].len() by {
        assert(ls[i].len() < 0xc0);
    }
}

proof fn lemma_read_record_wf(d: Seq<u8>, p: int, msg: Seq<u8>)
    ensures
        resource_at(empty_resource(), d, p, msg) matches Some((r, _, e)) ==> (e is None ==> wf_record(r)) && name_data(r.rname),
{
    lemma_name_labels_short(d, p, msg);
    if let Some((ls, q)) = name_at(d, p, msg) {
        lemma_short_labels_name(ls);
        if q + 10 <= d.len() {
            let t = crate::reader::be16(d, q);
            let e0 = empty_data();
            if t == 2 || t == 5 {
                lemma_name_labels_short(d, q + 10, msg);
                if let Some((ls2, q2)) = name_at(d, q + 10, msg) {
                    lemma_short_labels_name(ls2);
                    assert(consistent_data(with_name(e0, ls2)));
                }
            } else if t == 1 {
                let v = with_ipv4(e0, d, q + 10);
                assert(v.labels =~= Seq::new(4, |i: int| seq![d[q + 10 + i]]));
                assert(v.lengths =~= Seq::new(4, |i: int| 1u8));
                assert(consistent_data(v));
                assert(holds_ipv4(v));
            } else if t == 28 && q + 26 <= d.len() {
                let v = with_ipv6(e0, d, q + 10);
                assert(v.labels =~= Seq::new(8, |i: int| d.subrange(q + 10 + 2 * i, q + 10 + 2 * i + 2)));
                assert(v.lengths =~= Seq::new(8, |i: int| 2u8));
                assert(consistent_data(v));
            } else if t == 6 {
                lemma_name_labels_short(d, q + 10, msg);
                if let Some((n1, q1)) = name_at(d, q + 10, msg) {
                    lemma_name_labels_short(d, q1, msg);
                    if let Some((n2, q2)) = name_at(d, q1, msg) {
                        if q2 + 20 <= d.len() {
                            lemma_soa_consistent(d, n1, n2, q2);
                        }
                    }
                }
            }
        }
    }
}

proof fn lemma_soa_consistent(d: Seq<u8>, n1: Seq<Seq<u8>>, n2: Seq<Seq<u8>>, q: int)
    requires
        short_labels(n1),
        short_labels(n2),
    ensures
        consistent_data(with_soa(empty_data(), d, n1, n2, q)),
{
    let v = with_soa(empty_data(), d, n1, n2, q);
    let e = Seq::<u8>::empty();
    let labels = n1 + seq![e] + n2 + seq![e] + soa_numbers(d, q);
    let lengths = label_lengths(n1) + seq![0u8] + label_lengths(n2) + seq![0u8];
    assert(v.labels =~= labels);
    assert(v.lengths =~= lengths);
    let a = n1.len() as int;
    let b = n2.len() as int;
    assert forall|i: int| 0 <= i < lengths.len() implies #[trigger] lengths[i] as int == labels[i].len() && labels[i].len() < 0xc0 by {
        if i < a {
            assert(lengths[i] == n1[i].len() as u8);
            assert(labels[i] == n1[i]);
        } else if i == a {
            assert(lengths[i] == 0);
            assert(labels[i] == e);
        } else if i < a + 1 + b {
            assert(lengths[i] == n2[i - a - 1].len() as u8);
            assert(labels[i] == n2[i - a - 1]);
        } else {
            assert(lengths[i] == 0);
            assert(labels[i] == e);
        }
    }
    assert(lengths[a] == 0);
}

proof fn lemma_questions_wf(qs: Seq<QuestionView>, i: nat, n: nat, d: Seq<u8>, p: int, msg: Seq<u8>)
    requires
        qs.len() == i,
        forall|k: int| 0 <= k < qs.len() ==> #[trigger] wf_question(qs[k]),
    ensures
        questions_at(qs, i, n, d, p, msg) matches Some((r, _)) ==> r.len() == if i >= n { i } else { n }
            && forall|k: int| 0 <= k < r.len() ==> #[trigger] wf_question(r[k]),
    decreases n - i,
{
    if i < n {
        lemma_name_labels_short(d, p, msg);
        if let Some((q, p2)) = question_at(d, p, msg) {
            let ls = name_at(d, p, msg).unwrap().0;
            lemma_short_labels_name(ls);
            let qs2 = qs.push(empty_question()).update(i as int, q);
            assert forall|k: int| 0 <= k < qs2.len() implies #[trigger] wf_question(qs2[k]) by {
                if k < i {
                    assert(qs2[k] == qs[k]);
                }
            }
            lemma_questions_wf(qs2, i + 1, n, d, p2, msg);
        }
    }
}

proof fn lemma_resources_wf(rs: Seq<ResourceView>, i: nat, n: nat, d: Seq<u8>, p: int, msg: Seq<u8>)
    requires
        rs.len() == i,
        wf_records(rs),
    ensures
        resources_at(rs, i, n, d, p, msg) matches Some((r, _, e)) ==> e is None ==> r.len() == if i >= n { i } else { n } && wf_records(r),
    decreases n - i,
{
    if i < n {
        let rs1 = rs.push(empty_resource());
        assert(rs1[i as int] == empty_resource());
        lemma_read_record_wf(d, p, msg);
        if let Some((r, p2, e)) = resource_at(rs1[i as int], d, p, msg) {
            if e is None {
                let rs2 = rs1.update(i as int, r);
                assert forall|k: int| 0 <= k < rs2.len() implies #[trigger] wf_record(rs2[k]) by {
                    if k < i {
                        assert(rs2[k] == rs[k]);
                    }
                }
                lemma_resources_wf(rs2, i + 1, n, d, p2, msg);
            }
        }
    }
}

/// A message read to its end into an empty message is well formed, and holds exactly
/// as many entries in each section as its header counts.
pub proof fn lemma_read_message_wf(data: Seq<u8>)
    ensures
        message_at(empty_message(), data) matches Some((m, e)) ==> e is None ==> wf_message(m)
            && m.questions.len() == m.header.qdcount && m.answers.len() == m.header.ancount
            && m.authority.len() == m.header.nscount && m.additional.len() == m.header.arcount,
{
    let e0 = empty_message();
    let msg = e0.msg_copy + data;
    if data.len() >= 12 {
        let h = crate::header::header_from(crate::header::zero_header(), data, 0);
        lemma_questions_wf(e0.questions, 0, h.qdcount as nat, data, 12, msg);
        if let Some((qs, p1)) = questions_at(e0.questions, 0, h.qdcount as nat, data, 12, msg) {
            lemma_resources_wf(e0.answers, 0, h.ancount as nat, data, p1, msg);
            if let Some((ans, p2, e1)) = resources_at(e0.answers, 0, h.ancount as nat, data, p1, msg) {
                if e1 is None {
                    lemma_resources_wf(e0.authority, 0, h.nscount as nat, data, p2, msg);
                    if let Some((auth, p3, e2)) = resources_at(e0.authority, 0, h.nscount as nat, data, p2, msg) {
                        if e2 is None {
                            lemma_resources_wf(e0.additional, 0, h.arcount as nat, data, p3, msg);
                        }
                    }
                }
            }
        }
    }
}

/// A well-formed message can be written.
pub proof fn lemma_wf_writable(m: MessageView)
    requires
        wf_message(m),
    ensures
        writable_message(m),
{
    assert forall|i: int| 0 <= i < m.header.ancount implies #[trigger] writable_resource(m.answers[i]) by {
        assert(wf_record(m.answers[i]));
    }
}

} // verus!
