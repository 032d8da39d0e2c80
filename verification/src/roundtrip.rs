use vstd::prelude::*;
use crate::data::plain_name_data;
use crate::header::{Header, canonical_flags, header_from, header_bytes, zero_header, law_header_roundtrip};
use crate::question::{QuestionView, question_bytes, empty_question, lemma_question_at_bytes};
use crate::resource::{ResourceView, resource_at, resource_bytes, empty_resource, name_rdlength, lemma_resource_at_bytes, address_data, lemma_address_resource_at_bytes, soa_data,
    lemma_soa_resource_at_bytes};
use crate::message::{MessageView, questions_at, resources_at, questions_bytes, resources_bytes, message_at, message_bytes, empty_message};

verus! {

/// A record as reading gives it back after it was written: no cache time, and for a
/// record other than an A or SOA record the data length recomputed from the data.
pub open spec fn reread_record(r: ResourceView) -> ResourceView {
    if r.rtype == 1 || r.rtype == 6 {
        ResourceView { cache_timeout: 0, ..r }
    } else {
        ResourceView { rdlength: name_rdlength(r.rdata), cache_timeout: 0, ..r }
    }
}

/// An A or SOA record that reads back when nothing follows it: its owner is a plain name
/// and its data as reading leaves it. (Its data is written with a zero byte after it that
/// reading does not take, so a record after it would be read from that byte.)
pub open spec fn rereadable_last_record(r: ResourceView) -> bool {
    &&& plain_name_data(r.rname)
    &&& (r.rtype == 1 && address_data(r.rdata) || r.rtype == 6 && soa_data(r.rdata))
}

/// A question that reads back: its name is plain.
pub open spec fn rereadable_question(q: QuestionView) -> bool {
    plain_name_data(q.qname)
}

/// A record that reads back: a name record (NS or CNAME) whose owner and data are plain names.
pub open spec fn rereadable_record(r: ResourceView) -> bool {
    &&& r.rtype == 2 || r.rtype == 5
    &&& plain_name_data(r.rname)
    &&& plain_name_data(r.rdata)
}

/// The bytes of the first `m` questions are a prefix of those of the first `n`.
proof fn lemma_questions_bytes_prefix(qs: Seq<QuestionView>, m: nat, n: nat)
    requires
        m <= n,
    ensures
        questions_bytes(qs, m).len() <= questions_bytes(qs, n).len(),
        questions_bytes(qs, n).take(questions_bytes(qs, m).len() as int) == questions_bytes(qs, m),
    decreases n,
{
    if m < n {
        lemma_questions_bytes_prefix(qs, m, (n - 1) as nat);
        let a = questions_bytes(qs, m);
        assert(questions_bytes(qs, n).take(a.len() as int) =~= questions_bytes(qs, (n - 1) as nat).take(a.len() as int));
    } else {
        assert(questions_bytes(qs, n).take(questions_bytes(qs, m).len() as int) =~= questions_bytes(qs, m));
    }
}

/// The bytes of the first `m` records are a prefix of those of the first `n`.
proof fn lemma_resources_bytes_prefix(rs: Seq<ResourceView>, m: nat, n: nat)
    requires
        m <= n,
    ensures
        resources_bytes(rs, m).len() <= resources_bytes(rs, n).len(),
        resources_bytes(rs, n).take(resources_bytes(rs, m).len() as int) == resources_bytes(rs, m),
    decreases n,
{
    if m < n {
        lemma_resources_bytes_prefix(rs, m, (n - 1) as nat);
        let a = resources_bytes(rs, m);
        assert(resources_bytes(rs, n).take(a.len() as int) =~= resources_bytes(rs, (n - 1) as nat).take(a.len() as int));
    } else {
        assert(resources_bytes(rs, n).take(resources_bytes(rs, m).len() as int) =~= resources_bytes(rs, m));
    }
}

/// Reading questions `i` to `n - 1` from the bytes written for them (after the bytes `h`)
/// gives them back and ends where their bytes end.
proof fn lemma_questions_at_bytes(h: Seq<u8>, qs: Seq<QuestionView>, i: nat, n: nat, rest: Seq<u8>, msg: Seq<u8>)
    requires
        i <= n <= qs.len(),
        forall|k: int| 0 <= k < n ==> #[trigger] rereadable_question(qs[k]),
    ensures
        questions_at(qs.take(i as int), i, n, h + questions_bytes(qs, n) + rest, (h + questions_bytes(qs, i)).len() as int, msg)
            == Some((qs.take(n as int), (h + questions_bytes(qs, n)).len() as int)),
    decreases n - i,
{
    if i < n {
        let d = h + questions_bytes(qs, n) + rest;
        let a = h + questions_bytes(qs, i);
        let qb = question_bytes(qs[i as int]);
        let next = questions_bytes(qs, i + 1);
        lemma_questions_bytes_prefix(qs, i + 1, n);
        let tail = questions_bytes(qs, n).skip(next.len() as int) + rest;
        assert(next =~= questions_bytes(qs, i) + qb);
        assert(questions_bytes(qs, n) =~= next + questions_bytes(qs, n).skip(next.len() as int));
        assert(d =~= a + qb + tail);
        assert(rereadable_question(qs[i as int]));
        lemma_question_at_bytes(a, qs[i as int], tail, msg);
        assert(qs.take(i as int).push(empty_question()).update(i as int, qs[i as int]) =~= qs.take((i + 1) as int));
        assert((a + qb).len() == (h + next).len());
        lemma_questions_at_bytes(h, qs, i + 1, n, rest, msg);
    } else {
        assert(qs.take(i as int) =~= qs.take(n as int));
    }
}

/// A record written after the bytes `a` reads back into an empty record as it reads
/// back (see `reread_record`); the reading ends where its bytes end, or one byte before for
/// an A or SOA record.
proof fn lemma_record_at_bytes(a: Seq<u8>, r: ResourceView, rest: Seq<u8>, msg: Seq<u8>)
    requires
        rereadable_record(r) || rereadable_last_record(r),
    ensures
        resource_at(empty_resource(), a + resource_bytes(r) + rest, a.len() as int, msg)
            == Some((reread_record(r),
                if rereadable_record(r) { (a + resource_bytes(r)).len() as int } else { (a + resource_bytes(r)).len() - 1 },
                None::<Seq<char>>)),
{
    if rereadable_record(r) {
        lemma_resource_at_bytes(a, r, rest, msg);
    } else if r.rtype == 1 {
        lemma_address_resource_at_bytes(a, r, rest, msg);
    } else {
        lemma_soa_resource_at_bytes(a, r, rest, msg);
    }
}

/// Reading records `i` to `n - 1` from the bytes written for them (after the bytes `h`)
/// into records that already hold the first `i` as read back gives each of them as read
/// back, with no error; the reading ends where their bytes end, or one byte before where
/// the last is an A record.
#[verifier::spinoff_prover]
proof fn lemma_resources_at_bytes(h: Seq<u8>, rs: Seq<ResourceView>, i: nat, n: nat, rest: Seq<u8>, msg: Seq<u8>)
    requires
        i <= n <= rs.len(),
        forall|k: int| 0 <= k < n - 1 ==> #[trigger] rereadable_record(rs[k]),
        n > 0 ==> rereadable_record(rs[n - 1]) || rereadable_last_record(rs[n - 1]),
    ensures
        resources_at(Seq::new(i, |k: int| reread_record(rs[k])), i, n, h + resources_bytes(rs, n) + rest,
            (h + resources_bytes(rs, i)).len() as int, msg)
            == Some((Seq::new(n, |k: int| reread_record(rs[k])),
                if i < n && !rereadable_record(rs[n - 1]) { (h + resources_bytes(rs, n)).len() - 1 } else { (h + resources_bytes(rs, n)).len() as int },
                None::<Seq<char>>)),
    decreases n - i,
{
    let done = Seq::new(i, |k: int| reread_record(rs[k]));
    if i < n {
        let d = h + resources_bytes(rs, n) + rest;
        let a = h + resources_bytes(rs, i);
        let rb = resource_bytes(rs[i as int]);
        let next = resources_bytes(rs, i + 1);
        lemma_resources_bytes_prefix(rs, i + 1, n);
        let tail = resources_bytes(rs, n).skip(next.len() as int) + rest;
        assert(next =~= resources_bytes(rs, i) + rb);
        assert(resources_bytes(rs, n) =~= next + resources_bytes(rs, n).skip(next.len() as int));
        assert(d =~= a + rb + tail);
        assert(done.push(empty_resource())[i as int] == empty_resource());
        assert(done.push(empty_resource()).update(i as int, reread_record(rs[i as int]))
            =~= Seq::new(i + 1, |k: int| reread_record(rs[k])));
        assert((a + rb).len() == (h + next).len());
        let p = a.len() as int;
        lemma_record_at_bytes(a, rs[i as int], tail, msg);
        if rereadable_record(rs[i as int]) {
            lemma_resources_at_bytes(h, rs, i + 1, n, rest, msg);
            assert(resources_at(done, i, n, d, p, msg) == resources_at(Seq::new(i + 1, |k: int| reread_record(rs[k])), i + 1, n, d, (h + next).len() as int, msg));
        } else {
            assert(i == n - 1);
            assert(Seq::new(i + 1, |k: int| reread_record(rs[k])) =~= Seq::new(n, |k: int| reread_record(rs[k])));
            assert(next =~= resources_bytes(rs, n));
            assert(resources_at(done, i, n, d, p, msg) == resources_at(Seq::new(n, |k: int| reread_record(rs[k])), n, n, d, (a + rb).len() - 1, msg));
        }
    } else {
        assert(done =~= Seq::new(n, |k: int| reread_record(rs[k])));
    }
}

/// Reading the first `n` records from the bytes written for them (after the bytes `h`,
/// with nothing after them) gives each of them as read back, with no error; the reading
/// ends where the bytes end, or one byte before where the last record is an A record.
proof fn lemma_answers_at_bytes(h: Seq<u8>, rs: Seq<ResourceView>, n: nat, msg: Seq<u8>)
    requires
        n <= rs.len(),
        forall|k: int| 0 <= k < n - 1 ==> #[trigger] rereadable_record(rs[k]),
        n > 0 ==> rereadable_record(rs[n - 1]) || rereadable_last_record(rs[n - 1]),
    ensures
        resources_at(Seq::empty(), 0, n, h + resources_bytes(rs, n), h.len() as int, msg)
            == Some((Seq::new(n, |k: int| reread_record(rs[k])),
                if n > 0 && !rereadable_record(rs[n - 1]) { (h + resources_bytes(rs, n)).len() - 1 } else { (h + resources_bytes(rs, n)).len() as int },
                None::<Seq<char>>)),
{
    lemma_resources_at_bytes(h, rs, 0, n, Seq::empty(), msg);
    assert(resources_bytes(rs, 0) =~= Seq::<u8>::empty());
    assert(h + resources_bytes(rs, 0) =~= h);
    assert(h + resources_bytes(rs, n) + Seq::<u8>::empty() =~= h + resources_bytes(rs, n));
    assert(Seq::new(0, |k: int| reread_record(rs[k])) =~= Seq::<ResourceView>::empty());
}

/// Reading back into an empty message the bytes that `Message::write` writes (it clears
/// `tc` first) gives the header written, but for the name server and additional counts,
/// which are written as 0; the counted questions; the counted answers, each with no cache time and, but for an A or SOA
/// record, its data length recomputed; no authority or additional records; the bytes as
/// the message's copy; and no error. This holds for every message whose flags are values
/// that reading can store, whose counted questions have plain names, and whose counted
/// answers are NS or CNAME records with plain names, the last of which may instead be an A
/// or SOA record with a plain name and its data as reading leaves it.
#[verifier::spinoff_prover]
pub proof fn law_message_roundtrip(m: MessageView)
    requires
        m.header.tc == 0,
        canonical_flags(m.header),
        m.header.qdcount <= m.questions.len(),
        m.header.ancount <= m.answers.len(),
        forall|k: int| 0 <= k < m.header.qdcount ==> #[trigger] rereadable_question(m.questions[k]),
        forall|k: int| 0 <= k < m.header.ancount - 1 ==> #[trigger] rereadable_record(m.answers[k]),
        m.header.ancount > 0 ==> rereadable_record(m.answers[m.header.ancount - 1])
            || rereadable_last_record(m.answers[m.header.ancount - 1]),
    ensures
        message_at(empty_message(), message_bytes(m)) == Some((MessageView {
            header: Header { nscount: 0, arcount: 0, ..m.header },
            questions: m.questions.take(m.header.qdcount as int),
            answers: Seq::new(m.header.ancount as nat, |k: int| reread_record(m.answers[k])),
            msg_copy: message_bytes(m),
            ..empty_message()
        }, None::<Seq<char>>)),
{
    let hd = m.header;
    let qd = hd.qdcount as nat;
    let an = hd.ancount as nat;
    let hb = header_bytes(hd);
    let qb = questions_bytes(m.questions, qd);
    let rb = resources_bytes(m.answers, an);
    let d = message_bytes(m);
    let p1 = 12 + qb.len();
    assert(d =~= hb + qb + rb);
    assert(hb.len() == 12);
    assert(header_from(zero_header(), d, 0) == (Header { nscount: 0, arcount: 0, ..hd })) by {
        assert(Header { tc: 0, ..hd } == hd);
        law_header_roundtrip(hd, qb + rb);
        assert(d =~= hb + (qb + rb));
    }
    assert(empty_message().msg_copy + d =~= d);
    assert(questions_at(Seq::empty(), 0, qd, d, 12, d) == Some((m.questions.take(qd as int), p1 as int))) by {
        lemma_questions_at_bytes(hb, m.questions, 0, qd, rb, d);
        assert(m.questions.take(0) =~= Seq::<QuestionView>::empty());
        assert(questions_bytes(m.questions, 0) =~= Seq::<u8>::empty());
        assert(hb + questions_bytes(m.questions, 0) =~= hb);
    }
    let ans = Seq::new(an, |k: int| reread_record(m.answers[k]));
    let end: int = if an > 0 && !rereadable_record(m.answers[an - 1]) { d.len() - 1 } else { d.len() as int };
    assert(resources_at(Seq::empty(), 0, an, d, p1 as int, d) == Some((ans, end, None::<Seq<char>>))) by {
        lemma_answers_at_bytes(hb + qb, m.answers, an, d);
        assert(hb + qb + rb =~= d);
    }
    assert(resources_at(Seq::empty(), 0, 0, d, end, d) == Some((Seq::<ResourceView>::empty(), end, None::<Seq<char>>)));
}

} // verus!
