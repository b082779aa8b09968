use vstd::prelude::*;
use crate::result::{ErrorKind, IResult, Needed, SpecResult, lemma_concat_prefix, stable_under_extension};

verus! {

/// A domain name: the sequence of its labels, from the most specific one to
/// the one just below the root.
#[derive(Debug, PartialEq, Eq, Clone)]
pub struct Name {
    labels: Vec<Vec<u8>>,
}

/// The byte contents of a sequence of labels.
pub open spec fn label_bytes(v: Seq<Vec<u8>>) -> Seq<Seq<u8>> {
    v.map_values(|l: Vec<u8>| l@)
}

impl View for Name {
    type V = Seq<Seq<u8>>;

    closed spec fn view(&self) -> Seq<Seq<u8>> {
        label_bytes(self.labels@)
    }
}

impl Name {
    /// The name made of the given labels.
    pub fn from_labels(labels: Vec<Vec<u8>>) -> (n: Name)
        ensures
            n@ == label_bytes(labels@),
    {
        Name { labels }
    }

    /// The labels of this name.
    pub fn labels(&self) -> (l: &Vec<Vec<u8>>)
        ensures
            label_bytes(l@) == self@,
    {
        &self.labels
    }
}

/// A length byte that introduces an ordinary label of `b` bytes.
pub open spec fn is_label_len(b: u8) -> bool {
    0 < b < 64
}

/// A first byte of a two-byte compression pointer.
pub open spec fn is_pointer(b: u8) -> bool {
    b >= 192
}

/// The message offset that the compression pointer at `k` points to.
pub open spec fn pointer_target(s: Seq<u8>, k: int) -> nat {
    ((s[k] - 192) * 256 + s[k + 1]) as nat
}

/// Reads the rest of a compressed name from the message `data`, starting at
/// `pos`, after `acc` has been read. Every further pointer must point
/// strictly before `limit`, the offset the previous pointer jumped to.
pub open spec fn data_labels(data: Seq<u8>, pos: nat, limit: nat, acc: Seq<Seq<u8>>) -> Result<
    Seq<Seq<u8>>,
    ErrorKind,
>
    decreases limit, data.len() - pos,
{
    if pos >= data.len() {
        Err(ErrorKind::Truncated)
    } else {
        let b = data[pos as int];
        if b == 0 {
            Ok(acc)
        } else if is_label_len(b) {
            if pos + 1 + b > data.len() {
                Err(ErrorKind::Truncated)
            } else {
                data_labels(
                    data,
                    (pos + 1 + b) as nat,
                    limit,
                    acc.push(data.subrange(pos + 1int, pos + 1int + b)),
                )
            }
        } else if is_pointer(b) {
            if pos + 2 > data.len() {
                Err(ErrorKind::Truncated)
            } else {
                let t = pointer_target(data, pos as int);
                if t >= limit {
                    Err(ErrorKind::ForwardPointer)
                } else {
                    data_labels(data, t, t, acc)
                }
            }
        } else {
            Err(ErrorKind::LabelType)
        }
    }
}

/// Reads a name from the input `i`, starting at `pos`, after `acc` has been
/// read; a compression pointer continues the name inside the message `data`.
/// `Needed::Size` counts the bytes of `i` needed from its start.
pub open spec fn input_labels(data: Seq<u8>, i: Seq<u8>, pos: nat, acc: Seq<Seq<u8>>) -> SpecResult<
    Seq<Seq<u8>>,
>
    decreases i.len() - pos,
{
    if pos >= i.len() {
        SpecResult::Incomplete(Needed::Size((pos + 1) as usize))
    } else {
        let b = i[pos as int];
        if b == 0 {
            SpecResult::Done(i.skip(pos + 1int), acc)
        } else if is_label_len(b) {
            if pos + 1 + b > i.len() {
                SpecResult::Incomplete(Needed::Size((pos + 1 + b) as usize))
            } else {
                input_labels(
                    data,
                    i,
                    (pos + 1 + b) as nat,
                    acc.push(i.subrange(pos + 1int, pos + 1int + b)),
                )
            }
        } else if is_pointer(b) {
            if pos + 2 > i.len() {
                SpecResult::Incomplete(Needed::Size((pos + 2) as usize))
            } else {
                let t = pointer_target(i, pos as int);
                match data_labels(data, t, t, acc) {
                    Ok(ls) => SpecResult::Done(i.skip(pos + 2int), ls),
                    Err(e) => SpecResult::Error(e),
                }
            }
        } else {
            SpecResult::Error(ErrorKind::LabelType)
        }
    }
}

/// What `parse_name` gives for the message `data` and the input `i`.
pub open spec fn spec_parse_name(data: Seq<u8>, i: Seq<u8>) -> SpecResult<Seq<Seq<u8>>> {
    input_labels(data, i, 0, Seq::empty())
}

/// A name read from the input ends inside it: what remains is a proper
/// suffix of the input. When more input is needed, more than the input is
/// asked for.
pub proof fn lemma_input_labels_suffix(data: Seq<u8>, i: Seq<u8>, pos: nat, acc: Seq<Seq<u8>>)
    ensures
        input_labels(data, i, pos, acc) matches SpecResult::Done(rest, _) ==> {
            &&& pos < i.len()
            &&& rest.len() < i.len() - pos
            &&& rest == i.skip(i.len() - rest.len())
        },
        i.len() <= isize::MAX && pos <= i.len() ==> (input_labels(data, i, pos, acc) matches SpecResult::Incomplete(
            Needed::Size(k),
        ) ==> k > i.len()),
    decreases i.len() - pos,
{
    if pos < i.len() {
        let b = i[pos as int];
        if is_label_len(b) && pos + 1 + b <= i.len() {
            lemma_input_labels_suffix(
                data,
                i,
                (pos + 1 + b) as nat,
                acc.push(i.subrange(pos + 1int, pos + 1int + b)),
            );
        }
    }
}

/// What remains after a parsed name is a proper suffix of the input; a
/// name that needs more input asks for more bytes than the input has.
pub proof fn lemma_parse_name_suffix(data: Seq<u8>, i: Seq<u8>)
    ensures
        spec_parse_name(data, i) matches SpecResult::Done(rest, _) ==> {
            &&& rest.len() < i.len()
            &&& rest == i.skip(i.len() - rest.len())
        },
        i.len() <= isize::MAX ==> (spec_parse_name(data, i) matches SpecResult::Incomplete(
            Needed::Size(k),
        ) ==> k > i.len()),
{
    lemma_input_labels_suffix(data, i, 0, Seq::empty());
}

proof fn lemma_input_labels_extend(
    data: Seq<u8>,
    i: Seq<u8>,
    extra: Seq<u8>,
    pos: nat,
    acc: Seq<Seq<u8>>,
)
    ensures
        stable_under_extension(
            input_labels(data, i, pos, acc),
            input_labels(data, i + extra, pos, acc),
            extra,
        ),
    decreases i.len() - pos,
{
    if pos < i.len() {
        lemma_concat_prefix(i, extra, pos as int, pos as int);
        let b = i[pos as int];
        if b == 0 {
            lemma_concat_prefix(i, extra, pos + 1int, pos + 1int);
        } else if is_label_len(b) {
            if pos + 1 + b <= i.len() {
                lemma_concat_prefix(i, extra, pos + 1int, pos + 1int + b);
                lemma_input_labels_extend(
                    data,
                    i,
                    extra,
                    (pos + 1 + b) as nat,
                    acc.push(i.subrange(pos + 1int, pos + 1int + b)),
                );
            }
        } else if is_pointer(b) {
            if pos + 2 <= i.len() {
                lemma_concat_prefix(i, extra, pos + 2int, pos + 2int);
            }
        }
    }
}

/// A name that was parsed, or rejected, stays so when more bytes follow it.
pub proof fn lemma_parse_name_extend(data: Seq<u8>, i: Seq<u8>, extra: Seq<u8>)
    ensures
        stable_under_extension(spec_parse_name(data, i), spec_parse_name(data, i + extra), extra),
{
    lemma_input_labels_extend(data, i, extra, 0, Seq::empty());
}

/// Labels read so far only come first in the result.
proof fn lemma_data_labels_acc(data: Seq<u8>, pos: nat, limit: nat, acc: Seq<Seq<u8>>)
    ensures
        data_labels(data, pos, limit, acc) == match data_labels(data, pos, limit, Seq::empty()) {
            Ok(ls) => Ok(acc + ls),
            Err(e) => Err(e),
        },
    decreases limit, data.len() - pos,
{
    if pos < data.len() {
        let b = data[pos as int];
        if b == 0 {
            assert(acc + Seq::<Seq<u8>>::empty() =~= acc);
        } else if is_label_len(b) {
            if pos + 1 + b <= data.len() {
                let l = data.subrange(pos + 1int, pos + 1int + b);
                let next = (pos + 1 + b) as nat;
                lemma_data_labels_acc(data, next, limit, acc.push(l));
                lemma_data_labels_acc(data, next, limit, Seq::empty().push(l));
                if let Ok(ls) = data_labels(data, next, limit, Seq::empty()) {
                    assert(acc.push(l) + ls =~= acc + (Seq::empty().push(l) + ls));
                }
            }
        } else if is_pointer(b) {
            if pos + 2 <= data.len() {
                let t = pointer_target(data, pos as int);
                if t < limit {
                    lemma_data_labels_acc(data, t, t, acc);
                }
            }
        }
    }
}

/// Labels read so far only come first in the result.
proof fn lemma_input_labels_acc(data: Seq<u8>, i: Seq<u8>, pos: nat, acc: Seq<Seq<u8>>)
    ensures
        input_labels(data, i, pos, acc) == match input_labels(data, i, pos, Seq::empty()) {
            SpecResult::Done(r, ls) => SpecResult::Done(r, acc + ls),
            SpecResult::Error(e) => SpecResult::Error(e),
            SpecResult::Incomplete(n) => SpecResult::Incomplete(n),
        },
    decreases i.len() - pos,
{
    if pos < i.len() {
        let b = i[pos as int];
        if b == 0 {
            assert(acc + Seq::<Seq<u8>>::empty() =~= acc);
        } else if is_label_len(b) {
            if pos + 1 + b <= i.len() {
                let l = i.subrange(pos + 1int, pos + 1int + b);
                let next = (pos + 1 + b) as nat;
                lemma_input_labels_acc(data, i, next, acc.push(l));
                lemma_input_labels_acc(data, i, next, Seq::empty().push(l));
                if let SpecResult::Done(r, ls) = input_labels(data, i, next, Seq::empty()) {
                    assert(acc.push(l) + ls =~= acc + (Seq::empty().push(l) + ls));
                }
            }
        } else if is_pointer(b) {
            if pos + 2 <= i.len() {
                let t = pointer_target(i, pos as int);
                lemma_data_labels_acc(data, t, t, acc);
            }
        }
    }
}

/// Reading from position `base + q` of `i` is reading from position `q` of
/// what follows the first `base` bytes, with sizes counted from `base`.
proof fn lemma_input_labels_offset(
    data: Seq<u8>,
    i: Seq<u8>,
    base: nat,
    q: nat,
    acc: Seq<Seq<u8>>,
)
    requires
        base <= i.len(),
        i.len() <= isize::MAX,
        base + q <= i.len(),
    ensures
        input_labels(data, i, base + q, acc) == match input_labels(data, i.skip(base as int), q, acc) {
            SpecResult::Done(r, ls) => SpecResult::Done(r, ls),
            SpecResult::Error(e) => SpecResult::Error(e),
            SpecResult::Incomplete(Needed::Size(k)) => SpecResult::Incomplete(
                Needed::Size((k + base) as usize),
            ),
        },
    decreases i.len() - base - q,
{
    let s = i.skip(base as int);
    let pos = base + q;
    if pos < i.len() {
        assert(s[q as int] == i[pos as int]);
        let b = i[pos as int];
        if b == 0 {
            assert(s.skip(q + 1int) =~= i.skip(pos + 1int));
        } else if is_label_len(b) {
            if pos + 1 + b <= i.len() {
                assert(s.subrange(q + 1int, q + 1int + b) =~= i.subrange(pos + 1int, pos + 1int + b));
                lemma_input_labels_offset(
                    data,
                    i,
                    base,
                    (q + 1 + b) as nat,
                    acc.push(i.subrange(pos + 1int, pos + 1int + b)),
                );
                assert(base + (q + 1 + b) as nat == (pos + 1 + b) as nat);
            }
        } else if is_pointer(b) {
            if pos + 2 <= i.len() {
                assert(s[q + 1int] == i[pos + 1int]);
                assert(s.skip(q + 2int) =~= i.skip(pos + 2int));
            }
        }
    }
}

/// A name read inside the message after a jump is also read when the
/// message is parsed as input from the jump target on.
proof fn lemma_data_labels_as_input(
    data: Seq<u8>,
    base: nat,
    pos: nat,
    limit: nat,
    acc: Seq<Seq<u8>>,
)
    requires
        base <= pos,
    ensures
        data_labels(data, pos, limit, acc) matches Ok(ls) ==> (input_labels(
            data,
            data.skip(base as int),
            (pos - base) as nat,
            acc,
        ) matches SpecResult::Done(_, ls2) && ls2 == ls),
    decreases data.len() - pos,
{
    let s = data.skip(base as int);
    let q = (pos - base) as nat;
    if pos < data.len() {
        assert(s[q as int] == data[pos as int]);
        let b = data[pos as int];
        if is_label_len(b) {
            if pos + 1 + b <= data.len() {
                assert(s.subrange(q + 1int, q + 1int + b) =~= data.subrange(pos + 1int, pos + 1int + b));
                lemma_data_labels_as_input(
                    data,
                    base,
                    (pos + 1 + b) as nat,
                    limit,
                    acc.push(data.subrange(pos + 1int, pos + 1int + b)),
                );
                assert(((pos + 1 + b) as nat - base) as nat == (q + 1 + b) as nat);
            }
        } else if is_pointer(b) {
            if pos + 2 <= data.len() {
                assert(s[q + 1int] == data[pos + 1int]);
            }
        }
    }
}

/// How a name starts: an empty input asks for one byte, a zero byte is the
/// root name and ends it, and the reserved length patterns `01` and `10`
/// are rejected.
pub proof fn lemma_name_start(data: Seq<u8>, i: Seq<u8>)
    ensures
        i.len() == 0 ==> spec_parse_name(data, i) == SpecResult::<Seq<Seq<u8>>>::Incomplete(
            Needed::Size(1),
        ),
        i.len() >= 1 && i[0] == 0 ==> spec_parse_name(data, i) == SpecResult::Done(
            i.skip(1),
            Seq::<Seq<u8>>::empty(),
        ),
        i.len() >= 1 && 64 <= i[0] < 192 ==> spec_parse_name(data, i)
            == SpecResult::<Seq<Seq<u8>>>::Error(ErrorKind::LabelType),
{
}

/// A label is a length byte below 64 and that many bytes; the name is that
/// label followed by the name that comes after it. A label cut off by the
/// end of the input asks for the whole label.
pub proof fn lemma_name_label(data: Seq<u8>, i: Seq<u8>)
    ensures
        i.len() <= isize::MAX && i.len() >= 1 && 0 < i[0] < 64 ==> {
            let b = i[0] as int;
            &&& 1 + b > i.len() ==> spec_parse_name(data, i)
                == SpecResult::<Seq<Seq<u8>>>::Incomplete(Needed::Size((1 + b) as usize))
            &&& 1 + b <= i.len() ==> spec_parse_name(data, i) == match spec_parse_name(
                data,
                i.skip(1 + b),
            ) {
                SpecResult::Done(r, ls) => SpecResult::Done(r, seq![i.subrange(1, 1 + b)] + ls),
                SpecResult::Error(e) => SpecResult::Error(e),
                SpecResult::Incomplete(Needed::Size(k)) => SpecResult::Incomplete(
                    Needed::Size((k + 1 + b) as usize),
                ),
            }
        },
{
    if i.len() <= isize::MAX && i.len() >= 1 && 0 < i[0] < 64 {
        let b = i[0] as int;
        if 1 + b <= i.len() {
            let l = i.subrange(1, 1 + b);
            let next = (1 + b) as nat;
            assert(Seq::<Seq<u8>>::empty().push(l) =~= seq![l]);
            lemma_input_labels_acc(data, i, next, seq![l]);
            lemma_input_labels_offset(data, i, next, 0, Seq::empty());
            if let SpecResult::Done(r, ls) = spec_parse_name(data, i.skip(1 + b)) {
                assert(seq![l] + ls =~= seq![i.subrange(1, 1 + b)] + ls);
            }
        }
    }
}

/// A compression pointer is two bytes whose top bits are `11`; the other
/// fourteen bits give an offset in the message. The name then is the name
/// found at that offset, and the input ends after the pointer. A pointer
/// past the end of the message is rejected.
pub proof fn lemma_name_pointer(data: Seq<u8>, i: Seq<u8>)
    ensures
        i.len() == 1 && i[0] >= 192 ==> spec_parse_name(data, i)
            == SpecResult::<Seq<Seq<u8>>>::Incomplete(Needed::Size(2)),
        i.len() >= 2 && i[0] >= 192 ==> {
            let t = (i[0] - 192) * 256 + i[1];
            &&& !(spec_parse_name(data, i) is Incomplete)
            &&& t >= data.len() ==> spec_parse_name(data, i)
                == SpecResult::<Seq<Seq<u8>>>::Error(ErrorKind::Truncated)
            &&& spec_parse_name(data, i) matches SpecResult::Done(rest, ls) ==> {
                &&& rest == i.skip(2)
                &&& spec_parse_name(data, data.skip(t)) matches SpecResult::Done(_, ls2)
                &&& ls2 == ls
            }
        },
{
    if i.len() >= 2 && i[0] >= 192 {
        let t = pointer_target(i, 0);
        lemma_data_labels_as_input(data, t, t, t, Seq::empty());
    }
}

proof fn lemma_label_bytes_push(v: Seq<Vec<u8>>, x: Vec<u8>)
    ensures
        label_bytes(v.push(x)) == label_bytes(v).push(x@),
{
    assert(label_bytes(v.push(x)) =~= label_bytes(v).push(x@));
}

/// Copies `len` bytes of `s` starting at `k`.
fn copy_label(s: &[u8], k: usize, len: usize) -> (v: Vec<u8>)
    requires
        k + len <= s@.len(),
    ensures
        v@ == s@.subrange(k as int, k + len),
{
    let n: usize = s.len();
    vstd::slice::slice_to_vec(vstd::slice::slice_subrange(s, k, k + len))
}

/// Reads the rest of a compressed name from the message, starting at the
/// pointer target `start`.
fn follow_pointer(data: &[u8], start: usize, labels: Vec<Vec<u8>>) -> (r: Result<
    Vec<Vec<u8>>,
    ErrorKind,
>)
    ensures
        data_labels(data@, start as nat, start as nat, label_bytes(labels@)) == match r {
            Ok(v) => Ok(label_bytes(v@)),
            Err(e) => Err(e),
        },
{
    let ghost whole = data_labels(data@, start as nat, start as nat, label_bytes(labels@));
    let mut acc = labels;
    let mut pos: usize = start;
    let mut limit: usize = start;
    let n: usize = data.len();
    loop
        invariant
            n == data@.len(),
            whole == data_labels(data@, start as nat, start as nat, label_bytes(labels@)),
            whole == data_labels(data@, pos as nat, limit as nat, label_bytes(acc@)),
        decreases limit, n - pos,
    {
        if pos >= n {
            return Err(ErrorKind::Truncated);
        }
        let b: u8 = data[pos];
        if b == 0 {
            return Ok(acc);
        } else if b < 64 {
            if (b as usize) > n - pos - 1 {
                return Err(ErrorKind::Truncated);
            }
            let label = copy_label(data, pos + 1, b as usize);
            let ghost old_acc = acc;
            acc.push(label);
            proof {
                lemma_label_bytes_push(old_acc@, label);
            }
            pos = pos + 1 + b as usize;
        } else if b >= 192 {
            if n - pos < 2 {
                return Err(ErrorKind::Truncated);
            }
            let t: usize = ((b - 192) as usize) * 256 + data[pos + 1] as usize;
            if t >= limit {
                return Err(ErrorKind::ForwardPointer);
            }
            pos = t;
            limit = t;
        } else {
            return Err(ErrorKind::LabelType);
        }
    }
}

/// Parses a domain name from `i`. Compression pointers refer to offsets in
/// the whole message `data`; after a jump, every further pointer must point
/// strictly before the previous jump target, so that reading ends.
pub fn parse_name<'a>(data: &'a [u8], i: &'a [u8]) -> (r: IResult<'a, Name>)
    requires
        i@.len() <= isize::MAX,
    ensures
        r@ == spec_parse_name(data@, i@),
        r matches IResult::Done(rest, _) ==> rest@.len() < i@.len(),
        r matches IResult::Incomplete(Needed::Size(k)) ==> k > i@.len(),
{
    proof {
        lemma_parse_name_suffix(data@, i@);
    }
    let mut acc: Vec<Vec<u8>> = Vec::new();
    let mut pos: usize = 0;
    let n: usize = i.len();
    proof {
        assert(label_bytes(acc@) =~= Seq::<Seq<u8>>::empty());
    }
    loop
        invariant
            n == i@.len(),
            n <= isize::MAX,
            pos <= n,
            spec_parse_name(data@, i@) == input_labels(data@, i@, pos as nat, label_bytes(acc@)),
        decreases n - pos,
    {
        if pos >= n {
            return IResult::Incomplete(Needed::Size(pos + 1));
        }
        let b: u8 = i[pos];
        if b == 0 {
            let rest = crate::result::skip(i, pos + 1);
            let name = Name { labels: acc };
            return IResult::Done(rest, name);
        } else if b < 64 {
            if (b as usize) > n - pos - 1 {
                return IResult::Incomplete(Needed::Size(pos + 1 + b as usize));
            }
            let label = copy_label(i, pos + 1, b as usize);
            let ghost old_acc = acc;
            acc.push(label);
            proof {
                lemma_label_bytes_push(old_acc@, label);
            }
            pos = pos + 1 + b as usize;
        } else if b >= 192 {
            if n - pos < 2 {
                return IResult::Incomplete(Needed::Size(pos + 2));
            }
            let t: usize = ((b - 192) as usize) * 256 + i[pos + 1] as usize;
            let rest = crate::result::skip(i, pos + 2);
            return match follow_pointer(data, t, acc) {
                Ok(v) => IResult::Done(rest, Name { labels: v }),
                Err(e) => IResult::Error(e),
            };
        } else {
            return IResult::Error(ErrorKind::LabelType);
        }
    }
}

} // verus!
