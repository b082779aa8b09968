use vstd::prelude::*;

verus! {

/// How much input a parser needs before it can decide.
#[derive(Debug, PartialEq, Eq, Structural, Clone, Copy)]
pub enum Needed {
    /// The parser needs at least this many bytes, counted as the parser that
    /// reports it counts them (see the individual parsers).
    Size(usize),
}

/// Why a parser rejected its input.
#[derive(Debug, PartialEq, Eq, Structural, Clone, Copy)]
pub enum ErrorKind {
    /// A numbered error raised by a record parser.
    Custom(u32),
    /// A domain-name label length byte uses one of the reserved top-bit
    /// patterns `01` or `10`.
    LabelType,
    /// A compression pointer does not point strictly before the place the
    /// previous pointer jumped to.
    ForwardPointer,
    /// A compressed domain name runs past the end of the message.
    Truncated,
}

/// The outcome of running a parser on a byte slice.
#[derive(Debug, PartialEq, Eq)]
pub enum IResult<'a, O> {
    /// The parser succeeded; the remaining input and the parsed value.
    Done(&'a [u8], O),
    /// The parser rejected the input.
    Error(ErrorKind),
    /// The input ended before the parser could decide.
    Incomplete(Needed),
}

/// The mathematical counterpart of `IResult`: the remaining input is a sequence.
pub enum SpecResult<O> {
    Done(Seq<u8>, O),
    Error(ErrorKind),
    Incomplete(Needed),
}

impl<O> SpecResult<O> {
    /// Applies `f` to the parsed value, if any.
    pub open spec fn map<P>(self, f: spec_fn(O) -> P) -> SpecResult<P> {
        match self {
            SpecResult::Done(rest, v) => SpecResult::Done(rest, f(v)),
            SpecResult::Error(e) => SpecResult::Error(e),
            SpecResult::Incomplete(n) => SpecResult::Incomplete(n),
        }
    }
}

impl<'a, O> IResult<'a, O> {
    /// The same outcome, with the remaining input taken as a sequence.
    pub open spec fn spec_result(self) -> SpecResult<O> {
        match self {
            IResult::Done(rest, v) => SpecResult::Done(rest@, v),
            IResult::Error(e) => SpecResult::Error(e),
            IResult::Incomplete(n) => SpecResult::Incomplete(n),
        }
    }
}

impl<'a, O: View> View for IResult<'a, O> {
    type V = SpecResult<O::V>;

    open spec fn view(&self) -> SpecResult<O::V> {
        self.spec_result().map(|o: O| o@)
    }
}

/// The big-endian 16-bit value of the two bytes at `k`.
pub open spec fn u16_at(s: Seq<u8>, k: int) -> u16 {
    (s[k] * 256 + s[k + 1]) as u16
}

/// The big-endian 32-bit value of the four bytes at `k`.
pub open spec fn u32_at(s: Seq<u8>, k: int) -> u32 {
    (u16_at(s, k) * 65536 + u16_at(s, k + 2)) as u32
}

/// The big-endian two's complement 32-bit value of the four bytes at `k`.
pub open spec fn i32_at(s: Seq<u8>, k: int) -> i32 {
    let u = u32_at(s, k);
    if u < 0x8000_0000 {
        u as i32
    } else {
        (u - 0x1_0000_0000) as i32
    }
}

/// Reads the big-endian 16-bit value at `k`.
pub fn read_u16(s: &[u8], k: usize) -> (v: u16)
    requires
        k + 2 <= s@.len(),
    ensures
        v == u16_at(s@, k as int),
{
    (s[k] as u16) * 256 + (s[k + 1] as u16)
}

/// Reads the big-endian 32-bit value at `k`.
pub fn read_u32(s: &[u8], k: usize) -> (v: u32)
    requires
        k + 4 <= s@.len(),
    ensures
        v == u32_at(s@, k as int),
{
    let n: usize = s.len();
    let hi: u16 = read_u16(s, k);
    let lo: u16 = read_u16(s, k + 2);
    (hi as u32) * 65536 + (lo as u32)
}

/// Reads the big-endian two's complement 32-bit value at `k`.
pub fn read_i32(s: &[u8], k: usize) -> (v: i32)
    requires
        k + 4 <= s@.len(),
    ensures
        v == i32_at(s@, k as int),
{
    let u: u32 = read_u32(s, k);
    if u < 0x8000_0000 {
        u as i32
    } else {
        ((u as i64) - 0x1_0000_0000i64) as i32
    }
}

/// The remaining input after the first `k` bytes.
pub fn skip<'a>(s: &'a [u8], k: usize) -> (r: &'a [u8])
    requires
        k <= s@.len(),
    ensures
        r@ == s@.skip(k as int),
{
    let r = vstd::slice::slice_subrange(s, k, s.len());
    assert(r@ =~= s@.skip(k as int));
    r
}

/// Bytes appended after the input do not change what lies before them.
pub proof fn lemma_concat_prefix(i: Seq<u8>, extra: Seq<u8>, a: int, b: int)
    requires
        0 <= a <= b <= i.len(),
    ensures
        (i + extra).subrange(a, b) == i.subrange(a, b),
        (i + extra).skip(a) == i.skip(a) + extra,
        forall|k: int| 0 <= k < i.len() ==> #[trigger] (i + extra)[k] == i[k],
{
    assert((i + extra).subrange(a, b) =~= i.subrange(a, b));
    assert((i + extra).skip(a) =~= i.skip(a) + extra);
}

/// Whether a result stays the same when `extra` bytes follow the input:
/// a success keeps its value and its remaining input gains `extra`, a
/// rejection stays a rejection; a request for more input may change.
pub open spec fn stable_under_extension<O>(
    short: SpecResult<O>,
    long: SpecResult<O>,
    extra: Seq<u8>,
) -> bool {
    match short {
        SpecResult::Done(rest, v) => long == SpecResult::Done(rest + extra, v),
        SpecResult::Error(e) => long == SpecResult::<O>::Error(e),
        SpecResult::Incomplete(_) => true,
    }
}

} // verus!
