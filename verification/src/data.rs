use vstd::prelude::*;
use crate::reader::Reader;

verus! {

/// Abstract value of a `Data`: its labels, each a byte sequence, and its length bytes.
pub struct DataView {
    pub labels: Seq<Seq<u8>>,
    pub lengths: Seq<u8>,
}

/// The data of a name or of a resource record: labels and, beside them, length bytes.
/// A hostname "www.google.com" is held as labels ["www", "google", "com"] and lengths [3, 6, 3].
pub struct Data {
    pub label: Vec<Vec<u8>>,
    pub length: Vec<u8>,
}

impl View for Data {
    type V = DataView;

    open spec fn view(&self) -> DataView {
        DataView {
            labels: Seq::new(self.label@.len(), |i: int| self.label@[i]@),
            lengths: self.length@,
        }
    }
}

/// The length byte of each label.
pub open spec fn label_lengths(ls: Seq<Seq<u8>>) -> Seq<u8> {
    Seq::new(ls.len(), |i: int| ls[i].len() as u8)
}

/// `v` with the labels `ls` appended, each with its length byte.
pub open spec fn with_name(v: DataView, ls: Seq<Seq<u8>>) -> DataView {
    DataView { labels: v.labels + ls, lengths: v.lengths + label_lengths(ls) }
}

/// The empty data.
pub open spec fn empty_data() -> DataView {
    DataView { labels: Seq::empty(), lengths: Seq::empty() }
}

/// The labels of the name stored at `idx` of the message `msg`, following
/// compression pointers, in at most `fuel` steps; `None` where the name runs past the
/// end of the message or does not end within `fuel` steps. A pointer (a byte of at least
/// 0xc0) is followed to the offset given by its low six bits and the byte after it.
pub open spec fn pointer_labels(msg: Seq<u8>, idx: int, fuel: nat) -> Option<Seq<Seq<u8>>>
    decreases fuel,
{
    if fuel == 0 || idx < 0 || idx >= msg.len() {
        None
    } else if msg[idx] == 0 {
        Some(Seq::empty())
    } else if msg[idx] >= 0xc0 {
        if idx + 1 >= msg.len() {
            None
        } else {
            pointer_labels(msg, (msg[idx] - 0xc0) * 256 + msg[idx + 1], (fuel - 1) as nat)
        }
    } else {
        let n = msg[idx] as int;
        if idx + 1 + n > msg.len() {
            None
        } else {
            match pointer_labels(msg, idx + 1 + n, (fuel - 1) as nat) {
                Some(rest) => Some(seq![msg.subrange(idx + 1, idx + 1 + n)] + rest),
                None => None,
            }
        }
    }
}

/// The name stored in `msg` at `idx`. Each step of the walk visits a new offset of the
/// message unless the pointers form a cycle, so `msg.len()` steps are enough for any
/// name that ends.
pub open spec fn name_in_message(msg: Seq<u8>, idx: int) -> Option<Seq<Seq<u8>>> {
    pointer_labels(msg, idx, msg.len())
}

/// The name read from `d` at `p`: its labels and the position after it. A pointer
/// (a byte of at least 0xc0) and the byte after it give an offset into the message
/// `msg`, where the rest of the name is read; it ends the name in `d`.
pub open spec fn name_at(d: Seq<u8>, p: int, msg: Seq<u8>) -> Option<(Seq<Seq<u8>>, int)>
    decreases d.len() - p,
{
    if p < 0 || p >= d.len() {
        None
    } else if d[p] == 0 {
        Some((Seq::empty(), p + 1))
    } else if d[p] >= 0xc0 {
        if p + 1 >= d.len() {
            None
        } else {
            match name_in_message(msg, (d[p] - 0xc0) * 256 + d[p + 1]) {
                Some(ls) => Some((ls, p + 2)),
                None => None,
            }
        }
    } else {
        let n = d[p] as int;
        if p + 1 + n > d.len() {
            None
        } else {
            match name_at(d, p + 1 + n, msg) {
                Some((rest, q)) => Some((seq![d.subrange(p + 1, p + 1 + n)] + rest, q)),
                None => None,
            }
        }
    }
}

/// The two names and the position after them, read from `d` at `p`, where the five
/// 32-bit numbers of an SOA record follow; `None` where the record runs past the end.
pub open spec fn soa_at(d: Seq<u8>, p: int, msg: Seq<u8>) -> Option<(Seq<Seq<u8>>, Seq<Seq<u8>>, int)> {
    match name_at(d, p, msg) {
        Some((n1, q1)) => match name_at(d, q1, msg) {
            Some((n2, q2)) => if q2 + 20 <= d.len() {
                Some((n1, n2, q2))
            } else {
                None
            },
            None => None,
        },
        None => None,
    }
}

/// The five four-byte labels of the SOA numbers (serial, refresh, retry, expire, minimum) at `q`.
pub open spec fn soa_numbers(d: Seq<u8>, q: int) -> Seq<Seq<u8>> {
    Seq::new(5, |k: int| d.subrange(q + 4 * k, q + 4 * k + 4))
}

/// `v` after reading an SOA record with names `n1`, `n2` and numbers at `q` of `d`:
/// each name is followed by an empty label with length 0; the numbers get no length byte.
pub open spec fn with_soa(v: DataView, d: Seq<u8>, n1: Seq<Seq<u8>>, n2: Seq<Seq<u8>>, q: int) -> DataView {
    DataView {
        labels: v.labels + n1 + seq![Seq::<u8>::empty()] + n2 + seq![Seq::<u8>::empty()] + soa_numbers(d, q),
        lengths: v.lengths + label_lengths(n1) + seq![0u8] + label_lengths(n2) + seq![0u8],
    }
}

/// `v` after reading an IPv4 address at `p` of `d`: four one-byte labels of length 1.
pub open spec fn with_ipv4(v: DataView, d: Seq<u8>, p: int) -> DataView {
    DataView {
        labels: v.labels + Seq::new(4, |i: int| seq![d[p + i]]),
        lengths: v.lengths + Seq::new(4, |i: int| 1u8),
    }
}

/// `v` after reading an IPv6 address at `p` of `d`: eight two-byte labels of length 2.
pub open spec fn with_ipv6(v: DataView, d: Seq<u8>, p: int) -> DataView {
    DataView {
        labels: v.labels + Seq::new(8, |i: int| d.subrange(p + 2 * i, p + 2 * i + 2)),
        lengths: v.lengths + Seq::new(8, |i: int| 2u8),
    }
}

/// Bytes of the first `n` labels, each after its length byte where it has one.
pub open spec fn labels_bytes(v: DataView, n: nat) -> Seq<u8>
    decreases n,
{
    if n == 0 {
        Seq::empty()
    } else {
        labels_bytes(v, (n - 1) as nat) + (if n - 1 < v.lengths.len() {
            seq![v.lengths[n - 1]]
        } else {
            Seq::empty()
        }) + v.labels[n - 1]
    }
}

/// The wire form of a data: each label after its length byte where it has one, then a zero byte.
pub open spec fn data_bytes(v: DataView) -> Seq<u8> {
    labels_bytes(v, v.labels.len()) + seq![0u8]
}

/// The bytes of the first `n` labels, without length bytes.
pub open spec fn concat_labels(ls: Seq<Seq<u8>>, n: nat) -> Seq<u8>
    decreases n,
{
    if n == 0 {
        Seq::empty()
    } else {
        concat_labels(ls, (n - 1) as nat) + ls[n - 1]
    }
}

/// The IPv4 address held in the first four labels: the first byte of each.
pub open spec fn ipv4_of(v: DataView) -> Seq<u8> {
    Seq::new(4, |i: int| v.labels[i][0])
}

/// The data holds an IPv4 address: at least four labels, each with a byte.
pub open spec fn holds_ipv4(v: DataView) -> bool {
    v.labels.len() >= 4 && forall|i: int| 0 <= i < 4 ==> #[trigger] v.labels[i].len() >= 1
}

/// The data holds an IPv6 address: at least eight labels, each with two bytes.
pub open spec fn holds_ipv6(v: DataView) -> bool {
    v.labels.len() >= 8 && forall|i: int| 0 <= i < 8 ==> #[trigger] v.labels[i].len() >= 2
}

/// The big-endian number of the first four bytes of a label.
pub open spec fn label_u32(l: Seq<u8>) -> u32 {
    (l[0] as int * 16777216 + l[1] as int * 65536 + l[2] as int * 256 + l[3] as int) as u32
}

proof fn lemma_with_name_push(v: DataView, acc: Seq<Seq<u8>>, l: Seq<u8>)
    ensures
        with_name(v, acc.push(l)) == (DataView {
            labels: with_name(v, acc).labels.push(l),
            lengths: with_name(v, acc).lengths.push(l.len() as u8),
        }),
{
    assert(with_name(v, acc.push(l)).labels =~= with_name(v, acc).labels.push(l));
    assert(with_name(v, acc.push(l)).lengths =~= with_name(v, acc).lengths.push(l.len() as u8));
}

proof fn lemma_with_name_append(v: DataView, a: Seq<Seq<u8>>, b: Seq<Seq<u8>>)
    ensures
        with_name(v, a + b) == with_name(with_name(v, a), b),
{
    assert(with_name(v, a + b).labels =~= with_name(with_name(v, a), b).labels);
    assert(with_name(v, a + b).lengths =~= with_name(with_name(v, a), b).lengths);
}

proof fn lemma_with_name_empty(v: DataView)
    ensures
        with_name(v, Seq::empty()) == v,
{
    assert(with_name(v, Seq::empty()).labels =~= v.labels);
    assert(with_name(v, Seq::empty()).lengths =~= v.lengths);
}

/// Copies `src[start..start + n]`.
fn copy_range(src: &Vec<u8>, start: usize, n: usize) -> (r: Vec<u8>)
    requires
        start + n <= src.len(),
    ensures
        r@ == src@.subrange(start as int, start + n),
{
    let mut r: Vec<u8> = Vec::new();
    let mut i: usize = 0;
    while i < n
        invariant
            i <= n,
            start + n <= src.len(),
            r@ == src@.subrange(start as int, start + i),
        decreases n - i,
    {
        r.push(src[start + i]);
        i = i + 1;
        assert(r@ =~= src@.subrange(start as int, start + i));
    }
    r
}

impl Data {
    /// An empty data.
    pub fn new() -> (d: Data)
        ensures
            d@ == empty_data(),
    {
        let d = Data { label: Vec::new(), length: Vec::new() };
        assert(d@.labels =~= Seq::<Seq<u8>>::empty());
        d
    }

    /// Appends one label and its length byte.
    fn push_label(&mut self, l: Vec<u8>, len: u8)
        ensures
            final(self)@ == (DataView {
                labels: old(self)@.labels.push(l@),
                lengths: old(self)@.lengths.push(len),
            }),
    {
        self.label.push(l);
        self.length.push(len);
        assert(self@.labels =~= old(self)@.labels.push(l@));
    }

    /// Appends the name stored at `index` of the message `msg_copy`.
    fn dereference_pointer(&mut self, msg_copy: &Vec<u8>, index: usize)
        requires
            name_in_message(msg_copy@, index as int) is Some,
        ensures
            final(self)@ == with_name(old(self)@, name_in_message(msg_copy@, index as int).unwrap()),
    {
        let ghost msg = msg_copy@;
        let ghost total = name_in_message(msg, index as int).unwrap();
        let ghost mut acc: Seq<Seq<u8>> = Seq::empty();
        let mut idx: usize = index;
        let mut fuel: usize = msg_copy.len();
        proof {
            lemma_with_name_empty(old(self)@);
        }
        loop
            invariant_except_break
                msg == msg_copy@,
                msg.len() == msg_copy.len(),
                pointer_labels(msg, idx as int, fuel as nat) is Some,
                total == acc + pointer_labels(msg, idx as int, fuel as nat).unwrap(),
                self@ == with_name(old(self)@, acc),
            ensures
                self@ == with_name(old(self)@, total),
            decreases fuel,
        {
            if msg_copy[idx] == 0 {
                assert(total =~= acc);
                break;
            }
            if msg_copy[idx] >= 0xc0 {
                idx = ((msg_copy[idx] - 0xc0) as usize) * 256 + msg_copy[idx + 1] as usize;
                fuel = fuel - 1;
            } else {
                let n = msg_copy[idx] as usize;
                let len = msg_copy[idx];
                idx = idx + 1;
                let label = copy_range(msg_copy, idx, n);
                let ghost l = label@;
                self.push_label(label, len);
                proof {
                    lemma_with_name_push(old(self)@, acc, l);
                    let rest = pointer_labels(msg, (idx + n) as int, (fuel - 1) as nat).unwrap();
                    assert(acc + (seq![l] + rest) =~= acc.push(l) + rest);
                    acc = acc.push(l);
                }
                idx = idx + n;
                fuel = fuel - 1;
            }
        }
    }

    /// Reads a name, which may be compressed, from `reader` and appends its labels.
    /// A pointer in the name refers to an offset in `msg_copy`, the whole message.
    pub fn read_hostname(&mut self, reader: &mut Reader, msg_copy: &mut Vec<u8>)
        requires
            name_at(old(reader).data@, old(reader).pos as int, old(msg_copy)@) is Some,
        ensures
            final(self)@ == with_name(
                old(self)@,
                name_at(old(reader).data@, old(reader).pos as int, old(msg_copy)@).unwrap().0,
            ),
            final(reader).pos == name_at(old(reader).data@, old(reader).pos as int, old(msg_copy)@).unwrap().1,
            final(reader).data@ == old(reader).data@,
            final(msg_copy)@ == old(msg_copy)@,
    {
        let ghost d = reader.data@;
        let ghost msg = msg_copy@;
        let ghost total = name_at(d, reader.pos as int, msg).unwrap().0;
        let ghost qend = name_at(d, reader.pos as int, msg).unwrap().1;
        let ghost mut acc: Seq<Seq<u8>> = Seq::empty();
        proof {
            lemma_with_name_empty(old(self)@);
        }
        let mut byte_buffer = reader.read_u8();
        loop
            invariant_except_break
                reader.data@ == d,
                d.len() == reader.data.len(),
                msg == msg_copy@,
                1 <= reader.pos <= d.len(),
                byte_buffer == d[reader.pos - 1],
                name_at(d, reader.pos - 1, msg) is Some,
                total == acc + name_at(d, reader.pos - 1, msg).unwrap().0,
                qend == name_at(d, reader.pos - 1, msg).unwrap().1,
                self@ == with_name(old(self)@, acc),
            ensures
                self@ == with_name(old(self)@, total),
                reader.pos == qend,
                reader.data@ == d,
                msg == msg_copy@,
            decreases d.len() - reader.pos,
        {
            if byte_buffer == 0 {
                assert(total =~= acc);
                break;
            }
            if byte_buffer >= 0xc0 {
                let second = reader.read_u8();
                let length: usize = ((byte_buffer - 0xc0) as usize) * 256 + second as usize;
                self.dereference_pointer(msg_copy, length);
                proof {
                    lemma_with_name_append(old(self)@, acc, name_in_message(msg, length as int).unwrap());
                }
                break;
            } else {
                let n = byte_buffer as usize;
                let start = reader.pos;
                let label = copy_range(&reader.data, start, n);
                reader.pos = start + n;
                let ghost l = label@;
                self.push_label(label, byte_buffer);
                proof {
                    lemma_with_name_push(old(self)@, acc, l);
                    let rest = name_at(d, (start + n) as int, msg).unwrap().0;
                    assert(acc + (seq![l] + rest) =~= acc.push(l) + rest);
                    acc = acc.push(l);
                }
                byte_buffer = reader.read_u8();
            }
        }
    }

    /// Reads the data of an SOA record: the primary name server, the mailbox of the
    /// responsible person, then the serial, refresh, retry, expire and minimum numbers.
    pub fn read_soa(&mut self, reader: &mut Reader, msg_copy: &mut Vec<u8>)
        requires
            soa_at(old(reader).data@, old(reader).pos as int, old(msg_copy)@) is Some,
        ensures
            ({
                let (n1, n2, q) = soa_at(old(reader).data@, old(reader).pos as int, old(msg_copy)@).unwrap();
                &&& final(self)@ == with_soa(old(self)@, old(reader).data@, n1, n2, q)
                &&& final(reader).pos == q + 20
            }),
            final(reader).data@ == old(reader).data@,
            final(msg_copy)@ == old(msg_copy)@,
    {
        let ghost d = reader.data@;
        let ghost (n1, n2, q) = soa_at(d, reader.pos as int, msg_copy@).unwrap();
        self.read_hostname(reader, msg_copy);
        self.length.push(0u8);
        self.label.push(Vec::new());
        let ghost v1 = self@;
        self.read_hostname(reader, msg_copy);
        self.length.push(0u8);
        self.label.push(Vec::new());
        let ghost v2 = self@;
        let mut i: usize = 0;
        while i < 5
            invariant
                i <= 5,
                reader.data@ == d,
                reader.data.len() == d.len(),
                reader.pos == q + 4 * i,
                q >= 0,
                q + 20 <= d.len(),
                self@.lengths == v2.lengths,
                self@.labels == v2.labels + soa_numbers(d, q).take(i as int),
            decreases 5 - i,
        {
            let mut temp_label: Vec<u8> = Vec::new();
            let mut j: usize = 0;
            while j < 4
                invariant
                    j <= 4,
                    reader.data@ == d,
                    reader.data.len() == d.len(),
                    reader.pos == q + 4 * i + j,
                    i < 5,
                    q >= 0,
                    q + 20 <= d.len(),
                    temp_label@ == d.subrange(q + 4 * i, q + 4 * i + j),
                decreases 4 - j,
            {
                let b = reader.read_u8();
                temp_label.push(b);
                j = j + 1;
                assert(temp_label@ =~= d.subrange(q + 4 * i, q + 4 * i + j));
            }
            let ghost l = temp_label@;
            let ghost prev = self@.labels;
            self.label.push(temp_label);
            assert(self@.labels =~= prev.push(l));
            assert(soa_numbers(d, q)[i as int] =~= l);
            assert(soa_numbers(d, q).take(i + 1) =~= soa_numbers(d, q).take(i as int).push(l));
            assert(self@.labels =~= v2.labels + soa_numbers(d, q).take(i + 1));
            i = i + 1;
        }
        proof {
            assert(soa_numbers(d, q).take(5) =~= soa_numbers(d, q));
            assert(v1.labels =~= old(self)@.labels + n1 + seq![Seq::<u8>::empty()]);
            assert(self@.labels =~= with_soa(old(self)@, d, n1, n2, q).labels);
            assert(self@.lengths =~= with_soa(old(self)@, d, n1, n2, q).lengths);
        }
    }

    /// Reads an IPv4 address: four labels of one byte.
    pub fn read_ipv4_addr(&mut self, reader: &mut Reader)
        requires
            old(reader).pos + 4 <= old(reader).data.len(),
        ensures
            final(self)@ == with_ipv4(old(self)@, old(reader).data@, old(reader).pos as int),
            final(reader).pos == old(reader).pos + 4,
            final(reader).data@ == old(reader).data@,
    {
        let ghost d = reader.data@;
        let ghost p = reader.pos as int;
        let mut i: usize = 0;
        while i < 4
            invariant
                i <= 4,
                reader.data@ == d,
                reader.data.len() == d.len(),
                reader.pos == p + i,
                p + 4 <= d.len(),
                self@.labels == old(self)@.labels + Seq::new(i as nat, |k: int| seq![d[p + k]]),
                self@.lengths == old(self)@.lengths + Seq::new(i as nat, |k: int| 1u8),
            decreases 4 - i,
        {
            let mut label: Vec<u8> = Vec::new();
            label.push(reader.read_u8());
            self.push_label(label, 1);
            i = i + 1;
            assert(self@.labels =~= old(self)@.labels + Seq::new(i as nat, |k: int| seq![d[p + k]]));
            assert(self@.lengths =~= old(self)@.lengths + Seq::new(i as nat, |k: int| 1u8));
        }
    }

    /// Reads an IPv6 address: eight labels of two bytes.
    pub fn read_ipv6_addr(&mut self, reader: &mut Reader)
        requires
            old(reader).pos + 16 <= old(reader).data.len(),
        ensures
            final(self)@ == with_ipv6(old(self)@, old(reader).data@, old(reader).pos as int),
            final(reader).pos == old(reader).pos + 16,
            final(reader).data@ == old(reader).data@,
    {
        let ghost d = reader.data@;
        let ghost p = reader.pos as int;
        let mut i: usize = 0;
        while i < 8
            invariant
                i <= 8,
                reader.data@ == d,
                reader.data.len() == d.len(),
                reader.pos == p + 2 * i,
                p >= 0,
                p + 16 <= d.len(),
                self@.labels == old(self)@.labels + Seq::new(i as nat, |k: int| d.subrange(p + 2 * k, p + 2 * k + 2)),
                self@.lengths == old(self)@.lengths + Seq::new(i as nat, |k: int| 2u8),
            decreases 8 - i,
        {
            let mut label: Vec<u8> = Vec::new();
            let mut j: usize = 0;
            while j < 2
                invariant
                    j <= 2,
                    i < 8,
                    reader.data@ == d,
                    reader.data.len() == d.len(),
                    reader.pos == p + 2 * i + j,
                    p >= 0,
                    p + 16 <= d.len(),
                    label@ == d.subrange(p + 2 * i, p + 2 * i + j),
                decreases 2 - j,
            {
                label.push(reader.read_u8());
                j = j + 1;
                assert(label@ =~= d.subrange(p + 2 * i, p + 2 * i + j));
            }
            self.push_label(label, 2);
            i = i + 1;
            assert(self@.labels =~= old(self)@.labels + Seq::new(i as nat, |k: int| d.subrange(p + 2 * k, p + 2 * k + 2)));
            assert(self@.lengths =~= old(self)@.lengths + Seq::new(i as nat, |k: int| 2u8));
        }
    }

    /// The IPv4 address held in the first four labels.
    pub fn get_ipv4_addr(&mut self) -> (addr: Vec<u8>)
        requires
            holds_ipv4(old(self)@),
        ensures
            addr@ == ipv4_of(old(self)@),
            final(self)@ == old(self)@,
    {
        let mut addr: Vec<u8> = Vec::new();
        let mut i: usize = 0;
        while i < 4
            invariant
                i <= 4,
                holds_ipv4(self@),
                self@ == old(self)@,
                addr@ == ipv4_of(self@).take(i as int),
            decreases 4 - i,
        {
            assert(self@.labels[i as int].len() >= 1);
            addr.push(self.label[i][0]);
            i = i + 1;
            assert(addr@ =~= ipv4_of(self@).take(i as int));
        }
        assert(addr@ =~= ipv4_of(self@));
        addr
    }

    /// The IPv6 address held in the first eight labels: two bytes from each.
    pub fn get_ipv6_addr(&mut self) -> (addr: Vec<u8>)
        requires
            holds_ipv6(old(self)@),
        ensures
            addr@ == Seq::new(16, |k: int| old(self)@.labels[k / 2][k % 2]),
            final(self)@ == old(self)@,
    {
        let ghost target = Seq::new(16, |k: int| self@.labels[k / 2][k % 2]);
        let mut addr: Vec<u8> = Vec::new();
        let mut i: usize = 0;
        while i < 8
            invariant
                i <= 8,
                holds_ipv6(self@),
                self@ == old(self)@,
                target == Seq::new(16, |k: int| self@.labels[k / 2][k % 2]),
                addr@ == target.take(2 * i),
            decreases 8 - i,
        {
            assert(self@.labels[i as int].len() >= 2);
            let mut j: usize = 0;
            while j < 2
                invariant
                    j <= 2,
                    i < 8,
                    holds_ipv6(self@),
                    self@.labels[i as int].len() >= 2,
                    target == Seq::new(16, |k: int| self@.labels[k / 2][k % 2]),
                    addr@ == target.take(2 * i + j),
                decreases 2 - j,
            {
                addr.push(self.label[i][j]);
                assert(target[2 * i + j] == self@.labels[i as int][j as int]);
                j = j + 1;
                assert(addr@ =~= target.take(2 * i + j));
            }
            i = i + 1;
        }
        assert(addr@ =~= target);
        addr
    }

    /// The wire form: each label after its length byte (labels beyond the length bytes
    /// have none), then a zero byte.
    pub fn write(&mut self) -> (buf: Vec<u8>)
        ensures
            buf@ == data_bytes(old(self)@),
            final(self)@ == old(self)@,
    {
        let mut data_buffer: Vec<u8> = Vec::new();
        let mut i: usize = 0;
        while i < self.label.len()
            invariant
                i <= self@.labels.len(),
                self@ == old(self)@,
                data_buffer@ == labels_bytes(self@, i as nat),
            decreases self@.labels.len() - i,
        {
            if i < self.length.len() {
                data_buffer.push(self.length[i]);
            }
            let ghost before = data_buffer@;
            let mut j: usize = 0;
            while j < self.label[i].len()
                invariant
                    i < self@.labels.len(),
                    j <= self@.labels[i as int].len(),
                    self@ == old(self)@,
                    data_buffer@ == before + self@.labels[i as int].take(j as int),
                decreases self@.labels[i as int].len() - j,
            {
                data_buffer.push(self.label[i][j]);
                j = j + 1;
                assert(data_buffer@ =~= before + self@.labels[i as int].take(j as int));
            }
            assert(self@.labels[i as int].take(j as int) =~= self@.labels[i as int]);
            i = i + 1;
        }
        data_buffer.push(0u8);
        data_buffer
    }

    /// The wire form of a name whose every label has a length byte; the same bytes as `write`.
    pub fn write_cname(&mut self) -> (buf: Vec<u8>)
        requires
            old(self)@.lengths.len() >= old(self)@.labels.len(),
        ensures
            buf@ == data_bytes(old(self)@),
            final(self)@ == old(self)@,
    {
        let mut data_buffer: Vec<u8> = Vec::new();
        let mut i: usize = 0;
        while i < self.label.len()
            invariant
                i <= self@.labels.len(),
                self@ == old(self)@,
                self@.lengths.len() >= self@.labels.len(),
                data_buffer@ == labels_bytes(self@, i as nat),
            decreases self@.labels.len() - i,
        {
            data_buffer.push(self.length[i]);
            let ghost before = data_buffer@;
            let mut j: usize = 0;
            while j < self.label[i].len()
                invariant
                    i < self@.labels.len(),
                    j <= self@.labels[i as int].len(),
                    self@ == old(self)@,
                    data_buffer@ == before + self@.labels[i as int].take(j as int),
                decreases self@.labels[i as int].len() - j,
            {
                data_buffer.push(self.label[i][j]);
                j = j + 1;
                assert(data_buffer@ =~= before + self@.labels[i as int].take(j as int));
            }
            assert(self@.labels[i as int].take(j as int) =~= self@.labels[i as int]);
            i = i + 1;
        }
        data_buffer.push(0u8);
        data_buffer
    }

    /// The bytes of all labels, without length bytes, then a zero byte.
    pub fn write_ip_addr(&mut self) -> (buf: Vec<u8>)
        ensures
            buf@ == concat_labels(old(self)@.labels, old(self)@.labels.len()) + seq![0u8],
            final(self)@ == old(self)@,
    {
        let mut data_buffer: Vec<u8> = Vec::new();
        let mut i: usize = 0;
        while i < self.label.len()
            invariant
                i <= self@.labels.len(),
                self@ == old(self)@,
                data_buffer@ == concat_labels(self@.labels, i as nat),
            decreases self@.labels.len() - i,
        {
            let ghost before = data_buffer@;
            let mut j: usize = 0;
            while j < self.label[i].len()
                invariant
                    i < self@.labels.len(),
                    j <= self@.labels[i as int].len(),
                    self@ == old(self)@,
                    data_buffer@ == before + self@.labels[i as int].take(j as int),
                decreases self@.labels[i as int].len() - j,
            {
                data_buffer.push(self.label[i][j]);
                j = j + 1;
                assert(data_buffer@ =~= before + self@.labels[i as int].take(j as int));
            }
            assert(self@.labels[i as int].take(j as int) =~= self@.labels[i as int]);
            i = i + 1;
        }
        data_buffer.push(0u8);
        data_buffer
    }

    /// The big-endian number held in the four bytes of label `idx`.
    pub fn u8_to_u32(&mut self, idx: usize) -> (n: u32)
        requires
            idx < old(self)@.labels.len(),
            old(self)@.labels[idx as int].len() >= 4,
        ensures
            n == label_u32(old(self)@.labels[idx as int]),
            final(self)@ == old(self)@,
    {
        let mut data: u32 = 0;
        data = data + (self.label[idx][0] as u32);
        data = data * 256;
        data = data + (self.label[idx][1] as u32);
        data = data * 256;
        data = data + (self.label[idx][2] as u32);
        data = data * 256;
        data = data + (self.label[idx][3] as u32);
        data
    }

    /// A copy holding the same labels and lengths.
    pub fn deep_copy(&self) -> (r: Data)
        ensures
            r@ == self@,
    {
        let mut label: Vec<Vec<u8>> = Vec::new();
        let mut i: usize = 0;
        while i < self.label.len()
            invariant
                i <= self.label@.len(),
                label@.len() == i,
                forall|k: int| 0 <= k < i ==> #[trigger] label@[k]@ == self.label@[k]@,
            decreases self.label@.len() - i,
        {
            let l = copy_range(&self.label[i], 0, self.label[i].len());
            assert(l@ =~= self.label@[i as int]@);
            label.push(l);
            i = i + 1;
        }
        let length = copy_range(&self.length, 0, self.length.len());
        assert(length@ =~= self.length@);
        let r = Data { label, length };
        assert(r@.labels =~= self@.labels);
        r
    }

    /// The last label alone, with its length byte, where there are at least two labels.
    pub fn tld(&mut self) -> (r: Option<Data>)
        requires
            old(self)@.labels.len() > 1 ==> old(self)@.lengths.len() >= old(self)@.labels.len(),
        ensures
            final(self)@ == old(self)@,
            old(self)@.labels.len() > 1 ==> (r matches Some(t) && t@ == (DataView {
                labels: seq![old(self)@.labels.last()],
                lengths: seq![old(self)@.lengths[old(self)@.labels.len() - 1]],
            })),
            old(self)@.labels.len() <= 1 ==> r is None,
    {
        if self.label.len() > 1 {
            let mut tld = Data::new();
            let n = self.label.len();
            let l = copy_range(&self.label[n - 1], 0, self.label[n - 1].len());
            assert(l@ =~= self@.labels[n - 1]);
            tld.push_label(l, self.length[n - 1]);
            assert(tld@.labels =~= seq![self@.labels.last()]);
            assert(tld@.lengths =~= seq![self@.lengths[n - 1]]);
            Some(tld)
        } else {
            None
        }
    }

    /// Whether both hold the same labels (the length bytes are not compared).
    pub fn equals(&mut self, data: Data) -> (r: bool)
        ensures
            r == (old(self)@.labels == data@.labels),
            final(self)@ == old(self)@,
    {
        if self.label.len() != data.label.len() {
            return false;
        }
        let mut i: usize = 0;
        while i < self.label.len()
            invariant
                i <= self@.labels.len(),
                self@ == old(self)@,
                self@.labels.len() == data@.labels.len(),
                forall|k: int| 0 <= k < i ==> #[trigger] self@.labels[k] == data@.labels[k],
            decreases self@.labels.len() - i,
        {
            if self.label[i].len() != data.label[i].len() {
                assert(self@.labels[i as int].len() != data@.labels[i as int].len());
                return false;
            }
            let mut j: usize = 0;
            while j < self.label[i].len()
                invariant
                    i < self@.labels.len(),
                    self@ == old(self)@,
                    self@.labels.len() == data@.labels.len(),
                    self@.labels[i as int].len() == data@.labels[i as int].len(),
                    j <= self@.labels[i as int].len(),
                    forall|k: int| 0 <= k < j ==> self@.labels[i as int][k] == data@.labels[i as int][k],
                decreases self@.labels[i as int].len() - j,
            {
                if data.label[i][j] != self.label[i][j] {
                    assert(self@.labels[i as int][j as int] != data@.labels[i as int][j as int]);
                    return false;
                }
                j = j + 1;
            }
            assert(self@.labels[i as int] =~= data@.labels[i as int]);
            i = i + 1;
        }
        assert(self@.labels =~= data@.labels);
        true
    }
}

} // verus!

verus! {

/// The data's length bytes match its labels: there are no more length bytes than labels,
/// each length byte is the length of its label and below 0xc0 (so it cannot be read as
/// a pointer), and where labels go beyond the length bytes a zero length byte ends the name.
pub open spec fn consistent_data(v: DataView) -> bool {
    &&& v.lengths.len() <= v.labels.len()
    &&& forall|i: int| 0 <= i < v.lengths.len() ==> #[trigger] v.lengths[i] as int == v.labels[i].len()
    &&& forall|i: int| 0 <= i < v.lengths.len() ==> #[trigger] v.labels[i].len() < 0xc0
    &&& v.lengths.len() < v.labels.len() ==> exists|i: int| 0 <= i < v.lengths.len() && v.lengths[i] == 0
}

/// The data is a name: every label has its length byte, below 0xc0.
pub open spec fn name_data(v: DataView) -> bool {
    consistent_data(v) && v.lengths.len() == v.labels.len()
}

/// The data is a name whose labels are all non-empty.
pub open spec fn plain_name_data(v: DataView) -> bool {
    name_data(v) && forall|i: int| 0 <= i < v.labels.len() ==> #[trigger] v.labels[i].len() > 0
}

/// The index of the first zero among `ls` from `k` on, or the length of `ls`.
pub open spec fn first_zero(ls: Seq<u8>, k: int) -> int
    decreases ls.len() - k,
{
    if k >= ls.len() {
        ls.len() as int
    } else if ls[k] == 0 {
        k
    } else {
        first_zero(ls, k + 1)
    }
}

/// The first zero from `k` on lies between `k` and the end, and no byte before it is zero.
pub proof fn lemma_first_zero(ls: Seq<u8>, k: int)
    requires
        0 <= k <= ls.len(),
    ensures
        k <= first_zero(ls, k) <= ls.len(),
        first_zero(ls, k) < ls.len() ==> ls[first_zero(ls, k)] == 0,
        forall|i: int| k <= i < first_zero(ls, k) ==> #[trigger] ls[i] != 0,
    decreases ls.len() - k,
{
    if k < ls.len() && ls[k] != 0 {
        lemma_first_zero(ls, k + 1);
    }
}

proof fn lemma_labels_bytes_prefix(v: DataView, m: nat, n: nat)
    requires
        m <= n <= v.labels.len(),
    ensures
        labels_bytes(v, m).len() <= labels_bytes(v, n).len(),
        labels_bytes(v, n).take(labels_bytes(v, m).len() as int) == labels_bytes(v, m),
    decreases n,
{
    if m < n {
        lemma_labels_bytes_prefix(v, m, (n - 1) as nat);
        let a = labels_bytes(v, m);
        let b = labels_bytes(v, (n - 1) as nat);
        assert(labels_bytes(v, n).take(a.len() as int) =~= b.take(a.len() as int));
    } else {
        assert(labels_bytes(v, n).take(labels_bytes(v, m).len() as int) =~= labels_bytes(v, m));
    }
}

/// Reading the bytes written for a consistent data, from the position of label `k`:
/// the labels from `k` up to the first empty one (or the last) are read, then the name ends.
proof fn lemma_name_from(v: DataView, rest: Seq<u8>, msg: Seq<u8>, k: nat)
    requires
        consistent_data(v),
        k <= first_zero(v.lengths, 0),
    ensures
        ({
            let b = data_bytes(v) + rest;
            let j = first_zero(v.lengths, 0);
            name_at(b, labels_bytes(v, k).len() as int, msg) == Some((v.labels.subrange(k as int, j), (labels_bytes(v, j as nat).len() + 1) as int))
        }),
    decreases first_zero(v.lengths, 0) - k,
{
    let b = data_bytes(v) + rest;
    let j = first_zero(v.lengths, 0);
    lemma_first_zero(v.lengths, 0);
    let big = v.labels.len() as nat;
    if j == v.lengths.len() && j < v.labels.len() {
        let i = choose|i: int| 0 <= i < v.lengths.len() && v.lengths[i] == 0;
        assert(v.lengths[i] != 0);
    }
    assert(j <= v.labels.len());
    lemma_labels_bytes_prefix(v, k, big);
    let pk = labels_bytes(v, k).len() as int;
    if k == j {
        // The name ends here: either an empty label's zero length byte, or the final zero.
        if j < v.lengths.len() {
            lemma_labels_bytes_prefix(v, k + 1, big);
            let nxt = labels_bytes(v, k + 1);
            assert(nxt =~= labels_bytes(v, k) + seq![v.lengths[k as int]] + v.labels[k as int]);
            assert(labels_bytes(v, big).take(nxt.len() as int) == nxt);
            assert(b[pk] == nxt[pk]);
        } else {
            assert(j == v.labels.len());
            assert(b[pk] == 0);
        }
        assert(v.labels.subrange(k as int, j) =~= Seq::<Seq<u8>>::empty());
    } else {
        assert(k < v.lengths.len());
        assert(v.lengths[k as int] != 0);
        lemma_labels_bytes_prefix(v, k + 1, big);
        let nxt = labels_bytes(v, k + 1);
        let l = v.labels[k as int];
        assert(nxt =~= labels_bytes(v, k) + seq![v.lengths[k as int]] + l);
        assert(labels_bytes(v, big).take(nxt.len() as int) == nxt);
        assert(b[pk] == nxt[pk]);
        assert(b[pk] == v.lengths[k as int]);
        assert(b.subrange(pk + 1, pk + 1 + l.len()) =~= l) by {
            assert forall|t: int| 0 <= t < l.len() implies b.subrange(pk + 1, pk + 1 + l.len())[t] == l[t] by {
                assert(b[pk + 1 + t] == nxt[pk + 1 + t]);
            }
        }
        lemma_name_from(v, rest, msg, k + 1);
        assert(v.labels.subrange(k as int, j) =~= seq![l] + v.labels.subrange((k + 1) as int, j));
    }
}

/// Reading back what `Data::write` wrote for a name: the name read from the written
/// bytes, whatever follows them, holds the same labels and ends where the bytes end.
pub proof fn law_name_roundtrip(v: DataView, rest: Seq<u8>, msg: Seq<u8>)
    requires
        plain_name_data(v),
    ensures
        name_at(data_bytes(v) + rest, 0, msg) == Some((v.labels, data_bytes(v).len() as int)),
{
    lemma_first_zero(v.lengths, 0);
    if first_zero(v.lengths, 0) < v.lengths.len() {
        let z = first_zero(v.lengths, 0);
        assert(v.labels[z].len() > 0);
    }
    lemma_name_from(v, rest, msg, 0);
    assert(v.labels.subrange(0, v.labels.len() as int) =~= v.labels);
}

/// Reading a name at position `p` of `b` and at position `a.len() + p` of `a + b` gives
/// the same labels, and positions after it that differ by `a.len()`.
pub proof fn lemma_name_at_shift(a: Seq<u8>, b: Seq<u8>, p: int, msg: Seq<u8>)
    requires
        0 <= p,
    ensures
        name_at(a + b, a.len() + p, msg) == (match name_at(b, p, msg) {
            Some((ls, q)) => Some((ls, q + a.len())),
            None => None,
        }),
    decreases b.len() - p,
{
    let d = a + b;
    let pa = a.len() + p;
    if p < b.len() {
        assert(d[pa] == b[p]);
        if b[p] != 0 && b[p] < 0xc0 {
            let n = b[p] as int;
            if p + 1 + n <= b.len() {
                lemma_name_at_shift(a, b, p + 1 + n, msg);
                assert(d.subrange(pa + 1, pa + 1 + n) =~= b.subrange(p + 1, p + 1 + n));
            }
        } else if b[p] >= 0xc0 && p + 1 < b.len() {
            assert(d[pa + 1] == b[p + 1]);
        }
    }
}

/// A plain name rebuilt from its labels, each with its length byte, is the name itself.
pub proof fn lemma_plain_name_rebuilt(v: DataView)
    requires
        plain_name_data(v),
    ensures
        with_name(empty_data(), v.labels) == v,
{
    assert(with_name(empty_data(), v.labels).labels =~= v.labels);
    assert forall|i: int| 0 <= i < v.lengths.len() implies #[trigger] label_lengths(v.labels)[i] == v.lengths[i] by {
        assert(v.lengths[i] as int == v.labels[i].len());
    }
    assert(with_name(empty_data(), v.labels).lengths =~= v.lengths);
}

/// The bytes of labels `off` to `off + m - 1` of `v` follow those of the first `off`
/// labels and are those of the first `m` labels of `w`, where these labels and their
/// length bytes agree.
pub proof fn lemma_labels_bytes_shift(v: DataView, w: DataView, off: nat, m: nat)
    requires
        off + m <= v.labels.len(),
        m <= w.labels.len(),
        forall|i: int| 0 <= i < m ==> v.labels[off + i] == #[trigger] w.labels[i]
            && ((off + i < v.lengths.len()) <==> (i < w.lengths.len()))
            && (i < w.lengths.len() ==> v.lengths[off + i] == w.lengths[i]),
    ensures
        labels_bytes(v, off + m) == labels_bytes(v, off) + labels_bytes(w, m),
    decreases m,
{
    if m > 0 {
        let k = (m - 1) as nat;
        lemma_labels_bytes_shift(v, w, off, k);
        assert(v.labels[(off + k) as int] == w.labels[k as int]);
        assert(labels_bytes(v, off + m) =~= labels_bytes(v, off) + labels_bytes(w, m));
    } else {
        assert(labels_bytes(v, off + m) =~= labels_bytes(v, off) + labels_bytes(w, m));
    }
}

/// The bytes written for a consistent data start with a name that ends within them.
pub proof fn lemma_written_name_readable(v: DataView, rest: Seq<u8>, msg: Seq<u8>)
    requires
        consistent_data(v),
    ensures
        name_at(data_bytes(v) + rest, 0, msg) is Some,
{
    lemma_first_zero(v.lengths, 0);
    lemma_name_from(v, rest, msg, 0);
}

} // verus!
