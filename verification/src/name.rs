use vstd::prelude::*;
use vstd::utf8::{valid_utf8, decode_utf8};
use crate::reader::Reader;
use crate::data::label_lengths;

verus! {

/// Abstract value of a `Name`.
pub struct NameView {
    pub labels: Seq<Seq<char>>,
    pub lengths: Seq<u8>,
    pub pointer: u16,
}

/// A host name held as text labels, e.g. ["www", "google", "com"], with their lengths
/// [3, 6, 3], or as a compression pointer.
pub struct Name {
    pub label: Vec<String>,
    pub length: Vec<u8>,
    pub pointer: u16,
}

impl View for Name {
    type V = NameView;

    open spec fn view(&self) -> NameView {
        NameView {
            labels: Seq::new(self.label@.len(), |i: int| self.label@[i]@),
            lengths: self.length@,
            pointer: self.pointer,
        }
    }
}

/// The labels of the uncompressed name written in `d` at `p`, and the position after it:
/// each label follows its length byte, and a zero byte ends the name.
pub open spec fn plain_name_at(d: Seq<u8>, p: int) -> Option<(Seq<Seq<u8>>, int)>
    decreases d.len() - p,
{
    if p < 0 || p >= d.len() {
        None
    } else if d[p] == 0 {
        Some((Seq::empty(), p + 1))
    } else {
        let n = d[p] as int;
        if p + 1 + n > d.len() {
            None
        } else {
            match plain_name_at(d, p + 1 + n) {
                Some((rest, q)) => Some((seq![d.subrange(p + 1, p + 1 + n)] + rest, q)),
                None => None,
            }
        }
    }
}

/// Every label is valid UTF-8.
pub open spec fn all_utf8(ls: Seq<Seq<u8>>) -> bool {
    forall|i: int| 0 <= i < ls.len() ==> valid_utf8(#[trigger] ls[i])
}

/// The text of each label.
pub open spec fn decode_labels(ls: Seq<Seq<u8>>) -> Seq<Seq<char>> {
    Seq::new(ls.len(), |i: int| decode_utf8(ls[i]))
}

/// The name written uncompressed in `d` at `p` can be read: it ends within `d` and its
/// labels are valid UTF-8.
pub open spec fn readable_plain_name(d: Seq<u8>, p: int) -> bool {
    plain_name_at(d, p) matches Some((ls, _)) && all_utf8(ls)
}

/// `v` with the labels `ls` appended as text, each with its length byte.
pub open spec fn with_text_labels(v: NameView, ls: Seq<Seq<u8>>) -> NameView {
    NameView { labels: v.labels + decode_labels(ls), lengths: v.lengths + label_lengths(ls), ..v }
}

/// The text of the UTF-8 bytes `v` (std's `String::from_utf8`): `Ok` exactly when the
/// bytes are valid UTF-8, and then the characters they encode.
#[verifier::external_body]
fn string_from_utf8(v: Vec<u8>) -> (r: Result<String, std::string::FromUtf8Error>)
    ensures
        r is Ok <==> valid_utf8(v@),
        r matches Ok(s) ==> s@ == decode_utf8(v@),
{
    String::from_utf8(v)
}

/// The error of `String::from_utf8`, carried without looking inside.
#[verifier::external_type_specification]
#[verifier::external_body]
pub struct ExFromUtf8Error(std::string::FromUtf8Error);

/// Copies `src[start..start + n]`.
fn copy_bytes_range(src: &Vec<u8>, start: usize, n: usize) -> (r: Vec<u8>)
    requires
        start + n <= src.len(),
    ensures
        r@ == src@.subrange(start as int, start + n),
{
    let mut r: Vec<u8> = Vec::new();
    let mut i: usize = 0;
    while i < n
        invariant
            i <= n,
            start + n <= src.len(),
            r@ == src@.subrange(start as int, start + i),
        decreases n - i,
    {
        r.push(src[start + i]);
        i = i + 1;
        assert(r@ =~= src@.subrange(start as int, start + i));
    }
    r
}

impl Name {
    /// A name with no labels and no pointer.
    pub fn new() -> (n: Name)
        ensures
            n@ == (NameView { labels: Seq::empty(), lengths: Seq::empty(), pointer: 0 }),
    {
        let n = Name { label: Vec::new(), length: Vec::new(), pointer: 0 };
        assert(n@.labels =~= Seq::<Seq<char>>::empty());
        n
    }

    /// Appends the text label `bytes` with its length byte `len`.
    fn push_text(&mut self, bytes: Vec<u8>, len: u8)
        requires
            valid_utf8(bytes@),
        ensures
            final(self)@ == (NameView {
                labels: old(self)@.labels.push(decode_utf8(bytes@)),
                lengths: old(self)@.lengths.push(len),
                ..old(self)@
            }),
    {
        match string_from_utf8(bytes) {
            Ok(s) => {
                self.label.push(s);
                self.length.push(len);
                assert(self@.labels =~= old(self)@.labels.push(s@));
            },
            Err(_) => {},
        }
    }

    /// Reads the uncompressed name written in `d` at `start` and appends its labels.
    fn read_labels(&mut self, d: &Vec<u8>, start: usize) -> (end: usize)
        requires
            readable_plain_name(d@, start as int),
        ensures
            final(self)@ == with_text_labels(old(self)@, plain_name_at(d@, start as int).unwrap().0),
            end == plain_name_at(d@, start as int).unwrap().1,
    {
        let ghost total = plain_name_at(d@, start as int).unwrap().0;
        let ghost mut acc: Seq<Seq<u8>> = Seq::empty();
        let mut idx = start;
        assert(with_text_labels(old(self)@, acc).labels =~= old(self)@.labels);
        assert(with_text_labels(old(self)@, acc).lengths =~= old(self)@.lengths);
        let mut byte_buffer = d[idx];
        while byte_buffer != 0
            invariant
                idx < d@.len(),
                d@.len() == d.len(),
                byte_buffer == d@[idx as int],
                plain_name_at(d@, idx as int) is Some,
                total == acc + plain_name_at(d@, idx as int).unwrap().0,
                plain_name_at(d@, start as int).unwrap().1 == plain_name_at(d@, idx as int).unwrap().1,
                all_utf8(total),
                self@ == with_text_labels(old(self)@, acc),
            decreases d@.len() - idx,
        {
            let n = byte_buffer as usize;
            let label = copy_bytes_range(d, idx + 1, n);
            let ghost l = label@;
            let ghost rest = plain_name_at(d@, (idx + 1 + n) as int).unwrap().0;
            assert(total[acc.len() as int] == l);
            self.push_text(label, byte_buffer);
            proof {
                assert(acc + (seq![l] + rest) =~= acc.push(l) + rest);
                acc = acc.push(l);
                assert(self@.labels =~= with_text_labels(old(self)@, acc).labels);
                assert(self@.lengths =~= with_text_labels(old(self)@, acc).lengths);
            }
            idx = idx + 1 + n;
            byte_buffer = d[idx];
        }
        assert(total =~= acc);
        idx + 1
    }

    /// Reads a name from `reader`. A first byte of at least 0xc0 starts a pointer: the
    /// pointer is set to 0xc00c and the two bytes are passed over (only the first where the
    /// data ends after it). Otherwise the labels of the uncompressed name are appended as text.
    pub fn read_in(&mut self, reader: &mut Reader)
        requires
            old(reader).pos < old(reader).data@.len(),
            old(reader).data@[old(reader).pos as int] < 0xc0 ==> readable_plain_name(old(reader).data@, old(reader).pos as int),
        ensures
            final(reader).data@ == old(reader).data@,
            old(reader).data@[old(reader).pos as int] >= 0xc0 ==> final(self)@ == (NameView { pointer: 0xc00c, ..old(self)@ })
                && final(reader).pos == (if old(reader).pos + 2 <= old(reader).data@.len() {
                    old(reader).pos + 2
                } else {
                    old(reader).data@.len() as int
                }),
            old(reader).data@[old(reader).pos as int] < 0xc0 ==> final(self)@ == with_text_labels(old(self)@, plain_name_at(old(reader).data@, old(reader).pos as int).unwrap().0)
                && final(reader).pos == plain_name_at(old(reader).data@, old(reader).pos as int).unwrap().1,
    {
        let first = reader.data[reader.pos];
        if first >= 0xc0 {
            reader.read_u8();
            self.pointer = 0xc0 * 0x100;
            self.pointer = self.pointer + 0x000c;
            if reader.pos < reader.data.len() {
                reader.read_u8();
            }
            return;
        }
        let start = reader.pos;
        let end = self.read_labels(&reader.data, start);
        reader.pos = end;
    }

    /// The sum of the length bytes, wrapping at 256, as the length of a name is shown.
    pub fn name_length(&self) -> (n: u8)
        ensures
            n == crate::describe::byte_sum(self@.lengths),
    {
        let mut count: u8 = 0;
        let mut i: usize = 0;
        while i < self.length.len()
            invariant
                i <= self@.lengths.len(),
                count == crate::describe::byte_sum(self@.lengths.take(i as int)),
            decreases self@.lengths.len() - i,
        {
            assert(self@.lengths.take(i as int + 1).drop_last() =~= self@.lengths.take(i as int));
            count = count.wrapping_add(self.length[i]);
            i = i + 1;
        }
        assert(self@.lengths.take(i as int) =~= self@.lengths);
        count
    }

    /// Reads the uncompressed name written at the start of `name` and appends its labels as text.
    pub fn read_fr_vec(&mut self, name: Vec<u8>)
        requires
            readable_plain_name(name@, 0),
        ensures
            final(self)@ == with_text_labels(old(self)@, plain_name_at(name@, 0).unwrap().0),
    {
        self.read_labels(&name, 0);
    }
}

} // verus!
