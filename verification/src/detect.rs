use vstd::prelude::*;

verus! {

/// The index just past the line of `o` that starts at `s`: past its newline byte, or the
/// end of `o` for a last line without one.
pub open spec fn line_end(o: Seq<u8>, s: int) -> int
    decreases o.len() - s,
{
    if s >= o.len() {
        o.len() as int
    } else if o[s] == 10 {
        s + 1
    } else {
        line_end(o, s + 1)
    }
}

/// A line that starts within `o` ends after its start and within `o`, and holds no
/// newline byte but its last.
pub proof fn lemma_line_end(o: Seq<u8>, s: int)
    requires
        0 <= s,
    ensures
        s < o.len() ==> s < line_end(o, s) <= o.len(),
        s >= o.len() ==> line_end(o, s) == o.len(),
        forall|i: int| s <= i < line_end(o, s) - 1 ==> #[trigger] o[i] != 10,
    decreases o.len() - s,
{
    if s < o.len() && o[s] != 10 {
        lemma_line_end(o, s + 1);
    }
}

/// The line `l` gives an address: its bytes 1 to 5 are "inet " (as in the output of
/// `ifconfig`, where the line starts with a tab).
pub open spec fn is_inet_line(l: Seq<u8>) -> bool {
    l[1] == 105 && l[2] == 110 && l[3] == 101 && l[4] == 116 && l[5] == 32
}

/// The index of the first space of `l` from `j` on, or the length of `l`.
pub open spec fn first_space(l: Seq<u8>, j: int) -> int
    decreases l.len() - j,
{
    if j >= l.len() {
        l.len() as int
    } else if l[j] == 32 {
        j
    } else {
        first_space(l, j + 1)
    }
}

/// The parts of `t` between dots, from index `i` on, where `cur` is the part begun and
/// `acc` the parts ended before `i`.
pub open spec fn split_dots(t: Seq<u8>, i: int, cur: Seq<u8>, acc: Seq<Seq<u8>>) -> Seq<Seq<u8>>
    decreases t.len() - i,
{
    if i >= t.len() {
        acc.push(cur)
    } else if t[i] == 46 {
        split_dots(t, i + 1, Seq::empty(), acc.push(cur))
    } else {
        split_dots(t, i + 1, cur.push(t[i]), acc)
    }
}

/// The value of a sequence of decimal digits.
pub open spec fn decimal(ds: Seq<u8>) -> int
    decreases ds.len(),
{
    if ds.len() == 0 {
        0
    } else {
        decimal(ds.drop_last()) * 10 + (ds.last() - 48)
    }
}

/// A part of an address: one or more decimal digits whose value fits in a byte.
pub open spec fn valid_part(ds: Seq<u8>) -> bool {
    &&& ds.len() > 0
    &&& forall|i: int| 0 <= i < ds.len() ==> 48 <= #[trigger] ds[i] <= 57
    &&& decimal(ds) <= 255
}

/// The dotted text of the address of an "inet" line: from byte 6 to the first space.
pub open spec fn address_text(l: Seq<u8>) -> Seq<u8> {
    l.subrange(6, first_space(l, 6))
}

/// The dot-separated parts of the address of an "inet" line.
pub open spec fn address_parts(l: Seq<u8>) -> Seq<Seq<u8>> {
    split_dots(address_text(l), 0, Seq::empty(), Seq::empty())
}

/// The bytes of the address of an "inet" line.
pub open spec fn address_of(l: Seq<u8>) -> Seq<u8> {
    Seq::new(address_parts(l).len(), |i: int| decimal(address_parts(l)[i]) as u8)
}

/// An "inet" line can be read: a space follows its address, whose parts are each one or more
/// digits of value at most 255.
pub open spec fn readable_inet_line(l: Seq<u8>) -> bool {
    &&& first_space(l, 6) < l.len()
    &&& forall|i: int| 0 <= i < address_parts(l).len() ==> valid_part(#[trigger] address_parts(l)[i])
}

/// The address given by the first "inet" line of `o` from the line at `s` on.
pub open spec fn find_inet(o: Seq<u8>, s: int) -> Option<Seq<u8>>
    decreases o.len() - s,
{
    if s < 0 || s >= o.len() {
        None
    } else {
        let e = line_end(o, s);
        proof {
            lemma_line_end(o, s);
        }
        if is_inet_line(o.subrange(s, e)) {
            Some(address_of(o.subrange(s, e)))
        } else {
            find_inet(o, e)
        }
    }
}

/// Every line looked at from the line at `s` on, up to the first "inet" line, has at least
/// six bytes, and that "inet" line can be read.
pub open spec fn inet_search_readable(o: Seq<u8>, s: int) -> bool
    decreases o.len() - s,
{
    if s < 0 || s >= o.len() {
        true
    } else {
        let e = line_end(o, s);
        proof {
            lemma_line_end(o, s);
        }
        &&& e - s >= 6
        &&& if is_inet_line(o.subrange(s, e)) {
            readable_inet_line(o.subrange(s, e))
        } else {
            inet_search_readable(o, e)
        }
    }
}

/// The address given by the output `o` of `ifconfig`: that of the first "inet" line after
/// the first line; `None` where the output is empty or has no such line.
pub open spec fn detected_address(o: Seq<u8>) -> Option<Seq<u8>> {
    if o.len() == 0 {
        None
    } else {
        find_inet(o, line_end(o, 0))
    }
}

/// The output can be read for an address: the lines looked at are long enough and the
/// address found, if any, is well formed.
pub open spec fn detection_readable(o: Seq<u8>) -> bool {
    o.len() > 0 ==> inet_search_readable(o, line_end(o, 0))
}

fn line_end_at(o: &[u8], s: usize) -> (e: usize)
    requires
        s <= o@.len(),
    ensures
        e == line_end(o@, s as int),
{
    proof {
        lemma_line_end(o@, s as int);
    }
    let mut i = s;
    while i < o.len() && o[i] != 10
        invariant
            s <= i <= o@.len(),
            line_end(o@, i as int) == line_end(o@, s as int),
        decreases o@.len() - i,
    {
        i = i + 1;
    }
    if i < o.len() {
        i + 1
    } else {
        i
    }
}

proof fn lemma_decimal_prefix(ds: Seq<u8>, i: int)
    requires
        0 <= i <= ds.len(),
        forall|k: int| 0 <= k < ds.len() ==> 48 <= #[trigger] ds[k] <= 57,
    ensures
        0 <= decimal(ds.take(i)) <= decimal(ds),
    decreases ds.len() - i,
{
    if i < ds.len() {
        lemma_decimal_prefix(ds, i + 1);
        assert(ds.take(i + 1).drop_last() =~= ds.take(i));
    } else {
        assert(ds.take(i) =~= ds);
    }
    lemma_decimal_nonneg(ds.take(i));
}

proof fn lemma_decimal_nonneg(ds: Seq<u8>)
    requires
        forall|k: int| 0 <= k < ds.len() ==> 48 <= #[trigger] ds[k] <= 57,
    ensures
        decimal(ds) >= 0,
    decreases ds.len(),
{
    if ds.len() > 0 {
        lemma_decimal_nonneg(ds.drop_last());
    }
}

/// The value of a part of an address.
fn part_value(ds: &Vec<u8>) -> (v: u8)
    requires
        valid_part(ds@),
    ensures
        v == decimal(ds@),
{
    let mut v: u32 = 0;
    let mut i: usize = 0;
    while i < ds.len()
        invariant
            i <= ds@.len(),
            valid_part(ds@),
            v == decimal(ds@.take(i as int)),
        decreases ds@.len() - i,
    {
        proof {
            lemma_decimal_prefix(ds@, i as int + 1);
            assert(ds@.take(i as int + 1).drop_last() =~= ds@.take(i as int));
        }
        v = v * 10 + (ds[i] - 48) as u32;
        i = i + 1;
    }
    assert(ds@.take(i as int) =~= ds@);
    v as u8
}

/// Reads the address of the "inet" line of `o` from `s` to `e`.
fn inet_address(o: &[u8], s: usize, e: usize) -> (a: Vec<u8>)
    requires
        s + 6 <= e <= o@.len(),
        readable_inet_line(o@.subrange(s as int, e as int)),
    ensures
        a@ == address_of(o@.subrange(s as int, e as int)),
{
    let ghost l = o@.subrange(s as int, e as int);
    let ghost sp = first_space(l, 6);
    let ghost t = address_text(l);
    let ghost parts = address_parts(l);
    let ghost mut done: Seq<Seq<u8>> = Seq::empty();
    let mut addr: Vec<u8> = Vec::new();
    let mut buffer: Vec<u8> = Vec::new();
    let mut j: usize = s + 6;
    proof {
        lemma_first_space(l, 6);
    }
    while o[j] != 32
        invariant
            s + 6 <= j <= s + sp,
            s + 6 <= e <= o@.len(),
            l.len() == e - s,
            sp < l.len(),
            l == o@.subrange(s as int, e as int),
            sp == first_space(l, 6),
            t == l.subrange(6, sp),
            l[sp] == 32,
            forall|k: int| 6 <= k < sp ==> #[trigger] l[k] != 32,
            parts == split_dots(t, (j - s - 6) as int, buffer@, done),
            forall|k: int| 0 <= k < parts.len() ==> valid_part(#[trigger] parts[k]),
            addr@ == Seq::new(done.len(), |k: int| decimal(done[k]) as u8),
            done == parts.take(done.len() as int),
        decreases s + sp - j,
    {
        assert(o[j as int] == l[j - s]);
        if o[j] == 46 {
            proof {
                lemma_split_prefix(t, (j - s - 6) as int, buffer@, done);
                lemma_split_prefix(t, (j - s - 6) as int + 1, Seq::empty(), done.push(buffer@));
                assert(parts[done.len() as int] == buffer@);
            }
            let v = part_value(&buffer);
            addr.push(v);
            proof {
                done = done.push(buffer@);
                assert(addr@ =~= Seq::new(done.len(), |k: int| decimal(done[k]) as u8));
                assert(done =~= parts.take(done.len() as int));
            }
            buffer = Vec::new();
            j = j + 1;
        } else {
            buffer.push(o[j]);
            j = j + 1;
        }
    }
    assert(o[j as int] == l[j - s]);
    proof {
        assert(j - s == sp);
        lemma_split_prefix(t, (j - s - 6) as int, buffer@, done);
        assert(parts == done.push(buffer@));
        assert(parts[done.len() as int] == buffer@);
    }
    let v = part_value(&buffer);
    addr.push(v);
    proof {
        done = done.push(buffer@);
        assert(done =~= parts);
    }
    assert(addr@ =~= Seq::new(parts.len(), |k: int| decimal(parts[k]) as u8));
    addr
}

proof fn lemma_first_space(l: Seq<u8>, j: int)
    requires
        0 <= j,
    ensures
        j <= first_space(l, j) <= l.len() || j > l.len(),
        first_space(l, j) < l.len() ==> l[first_space(l, j)] == 32,
        forall|k: int| j <= k < first_space(l, j) ==> #[trigger] l[k] != 32,
    decreases l.len() - j,
{
    if j < l.len() && l[j] != 32 {
        lemma_first_space(l, j + 1);
    }
}

/// Splitting from `i` keeps the parts ended so far at the front, and where `i` is the end,
/// the part begun is the last.
proof fn lemma_split_prefix(t: Seq<u8>, i: int, cur: Seq<u8>, acc: Seq<Seq<u8>>)
    requires
        0 <= i,
    ensures
        split_dots(t, i, cur, acc).len() > acc.len(),
        split_dots(t, i, cur, acc).take(acc.len() as int) == acc,
        i >= t.len() ==> split_dots(t, i, cur, acc) == acc.push(cur),
        i < t.len() && t[i] == 46 ==> split_dots(t, i, cur, acc)[acc.len() as int] == cur,
    decreases t.len() - i,
{
    if i >= t.len() {
        assert(acc.push(cur).take(acc.len() as int) =~= acc);
    } else if t[i] == 46 {
        lemma_split_prefix(t, i + 1, Seq::empty(), acc.push(cur));
        let r = split_dots(t, i, cur, acc);
        assert(r.take(acc.len() as int + 1) == acc.push(cur));
        assert(r.take(acc.len() as int) =~= acc.push(cur).take(acc.len() as int));
        assert(acc.push(cur).take(acc.len() as int) =~= acc);
        assert(r[acc.len() as int] == r.take(acc.len() as int + 1)[acc.len() as int]);
    } else {
        lemma_split_prefix(t, i + 1, cur.push(t[i]), acc);
    }
}

/// The address of this machine given by the output `output` of `ifconfig`: the address
/// on the first line, after the first, whose bytes 1 to 5 are "inet ", read as dotted
/// decimal parts up to the next space; `None` where the output is empty or has no such line.
pub fn detect_addr(output: &[u8]) -> (r: Option<Vec<u8>>)
    requires
        detection_readable(output@),
    ensures
        match detected_address(output@) {
            Some(a) => r matches Some(v) && v@ == a,
            None => r is None,
        },
{
    if output.len() == 0 {
        return None;
    }
    let mut s = line_end_at(output, 0);
    proof {
        lemma_line_end(output@, 0);
    }
    loop
        invariant
            0 < s <= output@.len(),
            inet_search_readable(output@, s as int),
            find_inet(output@, s as int) == detected_address(output@),
        decreases output@.len() - s,
    {
        if s >= output.len() {
            return None;
        }
        let e = line_end_at(output, s);
        proof {
            lemma_line_end(output@, s as int);
        }
        let ghost l = output@.subrange(s as int, e as int);
        assert(output[s as int + 1] == l[1] && output[s as int + 2] == l[2] && output[s as int + 3] == l[3]
            && output[s as int + 4] == l[4] && output[s as int + 5] == l[5]);
        if output[s + 1] == 105 && output[s + 2] == 110 && output[s + 3] == 101 && output[s + 4] == 116
            && output[s + 5] == 32 {
            let a = inet_address(output, s, e);
            return Some(a);
        }
        s = e;
    }
}

/// Whether `ds` is one or more decimal digits of value at most 255.
fn part_valid(ds: &Vec<u8>) -> (r: bool)
    ensures
        r == valid_part(ds@),
{
    if ds.len() == 0 {
        return false;
    }
    let mut i: usize = 0;
    while i < ds.len()
        invariant
            i <= ds@.len(),
            forall|k: int| 0 <= k < i ==> 48 <= #[trigger] ds@[k] <= 57,
        decreases ds@.len() - i,
    {
        if ds[i] < 48 || ds[i] > 57 {
            assert(!(48 <= ds@[i as int] <= 57));
            return false;
        }
        i = i + 1;
    }
    let mut v: u32 = 0;
    let mut k: usize = 0;
    while k < ds.len()
        invariant
            k <= ds@.len(),
            forall|m: int| 0 <= m < ds@.len() ==> 48 <= #[trigger] ds@[m] <= 57,
            v == decimal(ds@.take(k as int)),
            v <= 255,
        decreases ds@.len() - k,
    {
        proof {
            assert(ds@.take(k as int + 1).drop_last() =~= ds@.take(k as int));
        }
        v = v * 10 + (ds[k] - 48) as u32;
        k = k + 1;
        if v > 255 {
            proof {
                lemma_decimal_prefix(ds@, k as int);
            }
            return false;
        }
    }
    assert(ds@.take(k as int) =~= ds@);
    true
}

/// Whether the "inet" line of `o` from `s` to `e` can be read (see `readable_inet_line`).
fn inet_line_readable(o: &[u8], s: usize, e: usize) -> (r: bool)
    requires
        s + 6 <= e <= o@.len(),
    ensures
        r == readable_inet_line(o@.subrange(s as int, e as int)),
{
    let ghost l = o@.subrange(s as int, e as int);
    proof {
        lemma_first_space(l, 6);
    }
    let mut j: usize = s + 6;
    while j < e && o[j] != 32
        invariant
            s + 6 <= j <= e <= o@.len(),
            l == o@.subrange(s as int, e as int),
            j - s <= first_space(l, 6),
            forall|k: int| 6 <= k < first_space(l, 6) ==> #[trigger] l[k] != 32,
            first_space(l, 6) < l.len() ==> l[first_space(l, 6)] == 32,
            first_space(l, 6) <= l.len(),
        decreases e - j,
    {
        assert(o[j as int] == l[j - s]);
        j = j + 1;
    }
    if j >= e {
        return false;
    }
    assert(o[j as int] == l[j - s]);
    let ghost sp = first_space(l, 6);
    assert(j - s == sp);
    let ghost t = address_text(l);
    let ghost parts = address_parts(l);
    let ghost mut done: Seq<Seq<u8>> = Seq::empty();
    let mut buffer: Vec<u8> = Vec::new();
    let mut k: usize = s + 6;
    while k < j
        invariant
            s + 6 <= k <= j,
            j == s + sp,
            sp == first_space(l, 6),
            sp < l.len(),
            l.len() == e - s,
            e <= o@.len(),
            l == o@.subrange(s as int, e as int),
            t == l.subrange(6, sp),
            parts == address_parts(l),
            parts == split_dots(t, (k - s - 6) as int, buffer@, done),
            forall|m: int| 0 <= m < done.len() ==> valid_part(#[trigger] done[m]),
            done == parts.take(done.len() as int),
        decreases j - k,
    {
        assert(o[k as int] == l[k - s]);
        assert(t[k - s - 6] == l[k - s]);
        if o[k] == 46 {
            proof {
                lemma_split_prefix(t, (k - s - 6) as int, buffer@, done);
                lemma_split_prefix(t, (k - s - 6) as int + 1, Seq::empty(), done.push(buffer@));
            }
            if !part_valid(&buffer) {
                proof {
                    assert(t == address_text(l));
                    assert(parts.len() > done.len());
                    assert(parts[done.len() as int] == buffer@);
                    assert(!valid_part(parts[done.len() as int]));
                }
                return false;
            }
            proof {
                done = done.push(buffer@);
                assert(done =~= parts.take(done.len() as int));
            }
            buffer = Vec::new();
        } else {
            buffer.push(o[k]);
        }
        k = k + 1;
    }
    proof {
        lemma_split_prefix(t, (k - s - 6) as int, buffer@, done);
    }
    if !part_valid(&buffer) {
        assert(!valid_part(parts[done.len() as int]));
        return false;
    }
    proof {
        assert(parts =~= done.push(buffer@));
    }
    true
}

/// Whether `detect_addr` can read `output` without running out of a line or reading a
/// part of the address that is not a byte in decimal (see `detection_readable`).
pub fn can_detect(output: &[u8]) -> (r: bool)
    ensures
        r == detection_readable(output@),
{
    if output.len() == 0 {
        return true;
    }
    let mut s = line_end_at(output, 0);
    proof {
        lemma_line_end(output@, 0);
    }
    loop
        invariant
            0 < s <= output@.len(),
            inet_search_readable(output@, s as int) == detection_readable(output@),
        decreases output@.len() - s,
    {
        if s >= output.len() {
            return true;
        }
        let e = line_end_at(output, s);
        proof {
            lemma_line_end(output@, s as int);
        }
        if e - s < 6 {
            return false;
        }
        let ghost l = output@.subrange(s as int, e as int);
        assert(output[s as int + 1] == l[1] && output[s as int + 2] == l[2] && output[s as int + 3] == l[3]
            && output[s as int + 4] == l[4] && output[s as int + 5] == l[5]);
        if output[s + 1] == 105 && output[s + 2] == 110 && output[s + 3] == 101 && output[s + 4] == 116
            && output[s + 5] == 32 {
            return inet_line_readable(output, s, e);
        }
        s = e;
    }
}

} // verus!
