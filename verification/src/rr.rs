//! Base types for dealing with resource records.
use vstd::prelude::*;
use crate::names::{Name, lemma_parse_name_extend, lemma_parse_name_suffix, parse_name, spec_parse_name};
use crate::result::{
    ErrorKind, IResult, Needed, SpecResult, i32_at, lemma_concat_prefix, read_i32, read_u16,
    read_u32, skip, stable_under_extension, u16_at, u32_at,
};

verus! {

/// A `Type` field indicates the structure and content of a resource record.
#[derive(Debug, PartialEq, Eq, Structural, Clone, Copy)]
pub enum Type {
    /// The `A` resource type, holding an IPv4 host address resource record.
    A,
    /// The `AAAA` resource type, holding an IPv6 host address resource record.
    AAAA,
    /// The `CNAME` resource type, holding the canonical name for an alias.
    CNAME,
    /// The `SOA` resource type, marks the start of a zone of authority.
    SOA,
    /// Indicates that the type is not known to this parser.
    Unknown {
        /// The value of the unknown type
        value: u16,
    },
}

/// Enum for valid `class` values from DNS resource records.
#[derive(Debug, PartialEq, Eq, Structural, Clone, Copy)]
pub enum Class {
    /// The "Internet" class.
    Internet,
    /// The "CHAOS" class.
    Chaos,
    /// The "Hesoid" class.
    Hesoid,
    /// An unknown class value.
    Unknown {
        /// The value of the unknown class
        value: u16,
    },
}

/// A resource record associates a `Name` within a `Class` with `Type` dependent data.
#[derive(Debug, PartialEq, Eq, Clone)]
pub enum ResourceRecord {
    /// An IPv4 host address resource record.
    A {
        /// The `Name` this record applies to.
        name: Name,
        /// The `Class` this record applies to.
        class: Class,
        /// The "time to live" for this data, in seconds.
        ttl: i32,
        /// The IPv4 host address, most significant octet first.
        addr: [u8; 4],
    },
    /// An IPv6 host address resource record.
    AAAA {
        /// The `Name` this record applies to.
        name: Name,
        /// The `Class` this record applies to.
        class: Class,
        /// The "time to live" for this data, in seconds.
        ttl: i32,
        /// The IPv6 host address as eight 16-bit segments, most significant first.
        addr: [u16; 8],
    },
    /// The canonical name for an alias.
    CNAME {
        /// The `Name` this record applies to.
        name: Name,
        /// The `Class` this record applies to.
        class: Class,
        /// The "time to live" for this data, in seconds.
        ttl: i32,
        /// The canonical name for the alias referred to in `name`.
        cname: Name,
    },
    /// The start of a zone of authority.
    SOA {
        /// The `Name` this record applies to.
        name: Name,
        /// The `Class` this record applies to.
        class: Class,
        /// The "time to live" for this data, in seconds.
        ttl: i32,
        /// The <domain-name> of the name server that was the original or primary source of data
        /// for this zone.
        mname: Name,
        /// A <domain-name> which specifies the mailbox of the person responsible for this zone.
        rname: Name,
        /// The unsigned 32 bit version number of the original copy of the zone.
        ///
        /// Zone transfers preserve this value. This value wraps and should be compared using
        /// sequence space arithmetic.
        serial: u32,
        /// A 32 bit time interval before the zone should be refreshed.
        refresh: u32,
        /// A 32 bit time interval that should elapse before a failed refresh should be retried.
        retry: u32,
        /// A 32 bit time value that specifies the upper limit on the time interval that can elapse
        /// before the zone is no longer authoritative.
        expire: u32,
        /// The unsigned 32 bit minimum TTL field that should be exported with any RR from this
        /// zone.
        minimum: u32,
    },
    /// A yet-unknown type of resource record.
    Unknown {
        /// The `Name` this record applies to.
        name: Name,
        /// The type code for this unknown data.
        rtype: u16,
        /// The `Class` this record applies to.
        class: Class,
        /// The "time to live" for this data, in seconds.
        ttl: i32,
        /// The data contained by the unknown record type.
        data: Vec<u8>,
    },
}

/// The mathematical value of a `ResourceRecord`: names as label sequences,
/// addresses and data as sequences.
pub enum SpecRecord {
    A { name: Seq<Seq<u8>>, class: Class, ttl: i32, addr: Seq<u8> },
    AAAA { name: Seq<Seq<u8>>, class: Class, ttl: i32, addr: Seq<u16> },
    CNAME { name: Seq<Seq<u8>>, class: Class, ttl: i32, cname: Seq<Seq<u8>> },
    SOA {
        name: Seq<Seq<u8>>,
        class: Class,
        ttl: i32,
        mname: Seq<Seq<u8>>,
        rname: Seq<Seq<u8>>,
        serial: u32,
        refresh: u32,
        retry: u32,
        expire: u32,
        minimum: u32,
    },
    Unknown { name: Seq<Seq<u8>>, rtype: u16, class: Class, ttl: i32, data: Seq<u8> },
}

impl View for ResourceRecord {
    type V = SpecRecord;

    open spec fn view(&self) -> SpecRecord {
        match self {
            ResourceRecord::A { name, class, ttl, addr } => SpecRecord::A {
                name: name@,
                class: *class,
                ttl: *ttl,
                addr: addr@,
            },
            ResourceRecord::AAAA { name, class, ttl, addr } => SpecRecord::AAAA {
                name: name@,
                class: *class,
                ttl: *ttl,
                addr: addr@,
            },
            ResourceRecord::CNAME { name, class, ttl, cname } => SpecRecord::CNAME {
                name: name@,
                class: *class,
                ttl: *ttl,
                cname: cname@,
            },
            ResourceRecord::SOA {
                name,
                class,
                ttl,
                mname,
                rname,
                serial,
                refresh,
                retry,
                expire,
                minimum,
            } => SpecRecord::SOA {
                name: name@,
                class: *class,
                ttl: *ttl,
                mname: mname@,
                rname: rname@,
                serial: *serial,
                refresh: *refresh,
                retry: *retry,
                expire: *expire,
                minimum: *minimum,
            },
            ResourceRecord::Unknown { name, rtype, class, ttl, data } => SpecRecord::Unknown {
                name: name@,
                rtype: *rtype,
                class: *class,
                ttl: *ttl,
                data: data@,
            },
        }
    }
}

/// The class denoted by a 16-bit class code.
pub open spec fn spec_class_from(value: u16) -> Class {
    if value == 1 {
        Class::Internet
    } else if value == 3 {
        Class::Chaos
    } else if value == 4 {
        Class::Hesoid
    } else {
        Class::Unknown { value }
    }
}

/// Maps a 16-bit class code to its `Class`.
fn class_from(value: u16) -> (c: Class)
    ensures
        c == spec_class_from(value),
{
    match value {
        1u16 => Class::Internet,
        3u16 => Class::Chaos,
        4u16 => Class::Hesoid,
        _ => Class::Unknown { value: value },
    }
}

/// What `parse_class` gives: the class of the big-endian code in the first
/// two bytes.
pub open spec fn spec_parse_class(i: Seq<u8>) -> SpecResult<Class> {
    if i.len() < 2 {
        SpecResult::Incomplete(Needed::Size(2))
    } else {
        SpecResult::Done(i.skip(2), spec_class_from(u16_at(i, 0)))
    }
}

/// Parses a two-byte class code.
pub fn parse_class<'a>(i: &'a [u8]) -> (r: IResult<'a, Class>)
    ensures
        r.spec_result() == spec_parse_class(i@),
{
    if i.len() < 2 {
        IResult::Incomplete(Needed::Size(2))
    } else {
        IResult::Done(skip(i, 2), class_from(read_u16(i, 0)))
    }
}

/// The type denoted by a 16-bit type code.
pub open spec fn spec_type_from(value: u16) -> Type {
    if value == 1 {
        Type::A
    } else if value == 28 {
        Type::AAAA
    } else if value == 5 {
        Type::CNAME
    } else if value == 6 {
        Type::SOA
    } else {
        Type::Unknown { value }
    }
}

/// Maps a 16-bit type code to its `Type`.
pub fn type_from(value: u16) -> (t: Type)
    ensures
        t == spec_type_from(value),
{
    match value {
        1u16 => Type::A,
        28u16 => Type::AAAA,
        5u16 => Type::CNAME,
        6u16 => Type::SOA,
        _ => Type::Unknown { value: value },
    }
}

/// What `parse_type` gives: the type of the big-endian code in the first
/// two bytes.
pub open spec fn spec_parse_type(i: Seq<u8>) -> SpecResult<Type> {
    if i.len() < 2 {
        SpecResult::Incomplete(Needed::Size(2))
    } else {
        SpecResult::Done(i.skip(2), spec_type_from(u16_at(i, 0)))
    }
}

/// Parses a two-byte type code.
pub fn parse_type<'a>(i: &'a [u8]) -> (r: IResult<'a, Type>)
    ensures
        r.spec_result() == spec_parse_type(i@),
{
    if i.len() < 2 {
        IResult::Incomplete(Needed::Size(2))
    } else {
        IResult::Done(skip(i, 2), type_from(read_u16(i, 0)))
    }
}

/// Whether the two-byte RDLENGTH tag `[hi, lo]` at offset 6 agrees with the
/// input on every byte that is present.
pub open spec fn tag_agrees(i: Seq<u8>, hi: u8, lo: u8) -> bool {
    &&& (i.len() > 6 ==> i[6] == hi)
    &&& (i.len() > 7 ==> i[7] == lo)
}

/// The fixed RDATA header after the type field: class, TTL and RDLENGTH.
pub open spec fn spec_rdata_header(i: Seq<u8>) -> SpecResult<(Class, i32, usize)> {
    if i.len() < 2 {
        SpecResult::Incomplete(Needed::Size(2))
    } else if i.len() < 6 {
        SpecResult::Incomplete(Needed::Size(6))
    } else if i.len() < 8 {
        SpecResult::Incomplete(Needed::Size(8))
    } else {
        SpecResult::Done(
            i.skip(8),
            (spec_class_from(u16_at(i, 0)), i32_at(i, 2), u16_at(i, 6) as usize),
        )
    }
}

/// Parses class, TTL and RDLENGTH.
fn parse_rdata_header<'a>(i: &'a [u8]) -> (r: IResult<'a, (Class, i32, usize)>)
    ensures
        r.spec_result() == spec_rdata_header(i@),
{
    let n: usize = i.len();
    if n < 2 {
        return IResult::Incomplete(Needed::Size(2));
    }
    if n < 6 {
        return IResult::Incomplete(Needed::Size(6));
    }
    if n < 8 {
        return IResult::Incomplete(Needed::Size(8));
    }
    let class = class_from(read_u16(i, 0));
    let ttl: i32 = read_i32(i, 2);
    let length: usize = read_u16(i, 6) as usize;
    IResult::Done(skip(i, 8), (class, ttl, length))
}

/// The body of an `A` record: class, TTL, RDLENGTH which must be 4, and the
/// four address octets. `Needed::Size` counts from the start of the body.
pub open spec fn spec_body_a(i: Seq<u8>) -> SpecResult<(Class, i32, Seq<u8>)> {
    if i.len() < 2 {
        SpecResult::Incomplete(Needed::Size(2))
    } else if i.len() < 6 {
        SpecResult::Incomplete(Needed::Size(6))
    } else if !tag_agrees(i, 0, 4) {
        SpecResult::Error(ErrorKind::Custom(403))
    } else if i.len() < 8 {
        SpecResult::Incomplete(Needed::Size(8))
    } else if i.len() < 12 {
        SpecResult::Incomplete(Needed::Size((i.len() + 1) as usize))
    } else {
        SpecResult::Done(
            i.skip(12),
            (spec_class_from(u16_at(i, 0)), i32_at(i, 2), i.subrange(8, 12)),
        )
    }
}

/// Parses the body of an `A` record.
fn parse_body_a<'a>(i: &'a [u8]) -> (r: IResult<'a, (Class, i32, [u8; 4])>)
    ensures
        r.spec_result().map(|t: (Class, i32, [u8; 4])| (t.0, t.1, t.2@)) == spec_body_a(i@),
{
    let n: usize = i.len();
    if n < 2 {
        return IResult::Incomplete(Needed::Size(2));
    }
    if n < 6 {
        return IResult::Incomplete(Needed::Size(6));
    }
    if (n > 6 && i[6] != 0) || (n > 7 && i[7] != 4) {
        return IResult::Error(ErrorKind::Custom(403));
    }
    if n < 8 {
        return IResult::Incomplete(Needed::Size(8));
    }
    if n < 12 {
        return IResult::Incomplete(Needed::Size(n + 1));
    }
    let class = class_from(read_u16(i, 0));
    let ttl: i32 = read_i32(i, 2);
    let addr: [u8; 4] = [i[8], i[9], i[10], i[11]];
    assert(addr@ =~= i@.subrange(8, 12));
    IResult::Done(skip(i, 12), (class, ttl, addr))
}

/// The eight big-endian 16-bit segments of an IPv6 address at offset 8.
pub open spec fn aaaa_segments(i: Seq<u8>) -> Seq<u16> {
    Seq::new(8, |k: int| u16_at(i, 8 + 2 * k))
}

/// The body of an `AAAA` record: class, TTL, RDLENGTH which must be 16, and
/// eight address segments. `Needed::Size` counts from the start of the body.
pub open spec fn spec_body_aaaa(i: Seq<u8>) -> SpecResult<(Class, i32, Seq<u16>)> {
    if i.len() < 2 {
        SpecResult::Incomplete(Needed::Size(2))
    } else if i.len() < 6 {
        SpecResult::Incomplete(Needed::Size(6))
    } else if !tag_agrees(i, 0, 16) {
        SpecResult::Error(ErrorKind::Custom(405))
    } else if i.len() < 8 {
        SpecResult::Incomplete(Needed::Size(8))
    } else if i.len() < 24 {
        SpecResult::Incomplete(
            Needed::Size(
                (if i.len() % 2 == 0 {
                    i.len() + 2
                } else {
                    i.len() + 1
                }) as usize,
            ),
        )
    } else {
        SpecResult::Done(
            i.skip(24),
            (spec_class_from(u16_at(i, 0)), i32_at(i, 2), aaaa_segments(i)),
        )
    }
}

/// Parses the body of an `AAAA` record.
fn parse_body_aaaa<'a>(i: &'a [u8]) -> (r: IResult<'a, (Class, i32, [u16; 8])>)
    ensures
        r.spec_result().map(|t: (Class, i32, [u16; 8])| (t.0, t.1, t.2@)) == spec_body_aaaa(i@),
{
    let n: usize = i.len();
    if n < 2 {
        return IResult::Incomplete(Needed::Size(2));
    }
    if n < 6 {
        return IResult::Incomplete(Needed::Size(6));
    }
    if (n > 6 && i[6] != 0) || (n > 7 && i[7] != 16) {
        return IResult::Error(ErrorKind::Custom(405));
    }
    if n < 8 {
        return IResult::Incomplete(Needed::Size(8));
    }
    if n < 24 {
        let need: usize = if n % 2 == 0 {
            n + 2
        } else {
            n + 1
        };
        return IResult::Incomplete(Needed::Size(need));
    }
    let class = class_from(read_u16(i, 0));
    let ttl: i32 = read_i32(i, 2);
    let addr: [u16; 8] = [
        read_u16(i, 8),
        read_u16(i, 10),
        read_u16(i, 12),
        read_u16(i, 14),
        read_u16(i, 16),
        read_u16(i, 18),
        read_u16(i, 20),
        read_u16(i, 22),
    ];
    assert(addr@ =~= aaaa_segments(i@));
    IResult::Done(skip(i, 24), (class, ttl, addr))
}

/// The body of a record of unknown type: class, TTL, RDLENGTH and that many
/// bytes of data. `Needed::Size` counts from the start of the body.
pub open spec fn spec_body_unknown(i: Seq<u8>) -> SpecResult<(Class, i32, Seq<u8>)> {
    if i.len() < 2 {
        SpecResult::Incomplete(Needed::Size(2))
    } else if i.len() < 6 {
        SpecResult::Incomplete(Needed::Size(6))
    } else if i.len() < 8 {
        SpecResult::Incomplete(Needed::Size(8))
    } else if i.len() < 8 + u16_at(i, 6) {
        SpecResult::Incomplete(Needed::Size((8 + u16_at(i, 6)) as usize))
    } else {
        SpecResult::Done(
            i.skip(8 + u16_at(i, 6)),
            (spec_class_from(u16_at(i, 0)), i32_at(i, 2), i.subrange(8, 8 + u16_at(i, 6))),
        )
    }
}

/// Parses the body of a record of unknown type, borrowing its data.
fn parse_body_unknown<'a>(i: &'a [u8]) -> (r: IResult<'a, (Class, i32, &'a [u8])>)
    ensures
        r.spec_result().map(|t: (Class, i32, &'a [u8])| (t.0, t.1, t.2@)) == spec_body_unknown(
            i@,
        ),
{
    let n: usize = i.len();
    if n < 2 {
        return IResult::Incomplete(Needed::Size(2));
    }
    if n < 6 {
        return IResult::Incomplete(Needed::Size(6));
    }
    if n < 8 {
        return IResult::Incomplete(Needed::Size(8));
    }
    let length: usize = read_u16(i, 6) as usize;
    if n - 8 < length {
        return IResult::Incomplete(Needed::Size(8 + length));
    }
    let class = class_from(read_u16(i, 0));
    let ttl: i32 = read_i32(i, 2);
    let data = vstd::slice::slice_subrange(i, 8, 8 + length);
    IResult::Done(skip(i, 8 + length), (class, ttl, data))
}

/// The five 32-bit counters that end an `SOA` record.
pub open spec fn spec_soa_counters(i: Seq<u8>) -> SpecResult<(u32, u32, u32, u32, u32)> {
    if i.len() < 20 {
        SpecResult::Incomplete(Needed::Size((4 * (i.len() / 4 + 1)) as usize))
    } else {
        SpecResult::Done(
            i.skip(20),
            (u32_at(i, 0), u32_at(i, 4), u32_at(i, 8), u32_at(i, 12), u32_at(i, 16)),
        )
    }
}

/// Parses the five counters of an `SOA` record.
fn parse_soa_counters<'a>(i: &'a [u8]) -> (r: IResult<'a, (u32, u32, u32, u32, u32)>)
    ensures
        r.spec_result() == spec_soa_counters(i@),
{
    let n: usize = i.len();
    if n < 20 {
        return IResult::Incomplete(Needed::Size(4 * (n / 4 + 1)));
    }
    let serial: u32 = read_u32(i, 0);
    let refresh: u32 = read_u32(i, 4);
    let retry: u32 = read_u32(i, 8);
    let expire: u32 = read_u32(i, 12);
    let minimum: u32 = read_u32(i, 16);
    IResult::Done(skip(i, 20), (serial, refresh, retry, expire, minimum))
}

/// An `A` record named `name`, from the body `i`.
pub open spec fn spec_parse_a(i: Seq<u8>, name: Seq<Seq<u8>>) -> SpecResult<SpecRecord> {
    spec_body_a(i).map(
        |t: (Class, i32, Seq<u8>)| SpecRecord::A { name, class: t.0, ttl: t.1, addr: t.2 },
    )
}

/// Parses an `A` record body into a record named `name`.
fn parse_a<'a>(i: &'a [u8], name: Name) -> (r: IResult<'a, ResourceRecord>)
    ensures
        r@ == spec_parse_a(i@, name@),
{
    match parse_body_a(i) {
        IResult::Done(rest, (class, ttl, addr)) => IResult::Done(
            rest,
            ResourceRecord::A { name, class, ttl, addr },
        ),
        IResult::Error(e) => IResult::Error(e),
        IResult::Incomplete(n) => IResult::Incomplete(n),
    }
}

/// An `AAAA` record named `name`, from the body `i`.
pub open spec fn spec_parse_aaaa(i: Seq<u8>, name: Seq<Seq<u8>>) -> SpecResult<SpecRecord> {
    spec_body_aaaa(i).map(
        |t: (Class, i32, Seq<u16>)| SpecRecord::AAAA { name, class: t.0, ttl: t.1, addr: t.2 },
    )
}

/// Parses an `AAAA` record body into a record named `name`.
fn parse_aaaa<'a>(i: &'a [u8], name: Name) -> (r: IResult<'a, ResourceRecord>)
    ensures
        r@ == spec_parse_aaaa(i@, name@),
{
    match parse_body_aaaa(i) {
        IResult::Done(rest, (class, ttl, addr)) => IResult::Done(
            rest,
            ResourceRecord::AAAA { name, class, ttl, addr },
        ),
        IResult::Error(e) => IResult::Error(e),
        IResult::Incomplete(n) => IResult::Incomplete(n),
    }
}

/// A record of the unknown type `rtype` named `name`, from the body `i`.
pub open spec fn spec_parse_unknown(i: Seq<u8>, name: Seq<Seq<u8>>, rtype: u16) -> SpecResult<
    SpecRecord,
> {
    spec_body_unknown(i).map(
        |t: (Class, i32, Seq<u8>)|
            SpecRecord::Unknown { name, rtype, class: t.0, ttl: t.1, data: t.2 },
    )
}

/// Parses the body of a record of type `rtype` into a record named `name`.
fn parse_unknown<'a>(i: &'a [u8], name: Name, rtype: u16) -> (r: IResult<'a, ResourceRecord>)
    ensures
        r@ == spec_parse_unknown(i@, name@, rtype),
{
    match parse_body_unknown(i) {
        IResult::Done(rest, (class, ttl, bytes)) => {
            let data = vstd::slice::slice_to_vec(bytes);
            IResult::Done(rest, ResourceRecord::Unknown { name, rtype, class, ttl, data })
        },
        IResult::Error(e) => IResult::Error(e),
        IResult::Incomplete(n) => IResult::Incomplete(n),
    }
}

/// A `CNAME` record named `name`, from the body `i` of the message `data`.
/// The record ends RDLENGTH bytes after its header, wherever the canonical
/// name ends.
pub open spec fn spec_parse_cname(data: Seq<u8>, i: Seq<u8>, name: Seq<Seq<u8>>) -> SpecResult<
    SpecRecord,
> {
    match spec_rdata_header(i) {
        SpecResult::Done(o, (class, ttl, length)) => {
            if o.len() < length {
                SpecResult::Incomplete(Needed::Size((length - o.len()) as usize))
            } else {
                match spec_parse_name(data, o) {
                    SpecResult::Done(_, cname) => SpecResult::Done(
                        o.skip(length as int),
                        SpecRecord::CNAME { name, class, ttl, cname },
                    ),
                    SpecResult::Error(e) => SpecResult::Error(e),
                    SpecResult::Incomplete(n) => SpecResult::Incomplete(n),
                }
            }
        },
        SpecResult::Error(e) => SpecResult::Error(e),
        SpecResult::Incomplete(n) => SpecResult::Incomplete(n),
    }
}

/// Parses a `CNAME` record body into a record named `name`.
fn parse_cname<'a>(data: &'a [u8], i: &'a [u8], name: Name) -> (r: IResult<'a, ResourceRecord>)
    requires
        i@.len() <= isize::MAX,
    ensures
        r@ == spec_parse_cname(data@, i@, name@),
{
    match parse_rdata_header(i) {
        IResult::Done(output, (class, ttl, length)) => {
            if output.len() < length {
                let size: usize = length - output.len();
                return IResult::Incomplete(Needed::Size(size));
            }
            match parse_name(data, output) {
                IResult::Done(_, cname) => IResult::Done(
                    skip(output, length),
                    ResourceRecord::CNAME { name, class, ttl, cname },
                ),
                IResult::Error(e) => IResult::Error(e),
                IResult::Incomplete(n) => IResult::Incomplete(n),
            }
        },
        IResult::Error(e) => IResult::Error(e),
        IResult::Incomplete(n) => IResult::Incomplete(n),
    }
}

/// An `SOA` record named `name`, from the body `i` of the message `data`.
/// The record ends RDLENGTH bytes after its header, wherever its names and
/// counters end.
pub open spec fn spec_parse_soa(data: Seq<u8>, i: Seq<u8>, name: Seq<Seq<u8>>) -> SpecResult<
    SpecRecord,
> {
    match spec_rdata_header(i) {
        SpecResult::Done(o, (class, ttl, length)) => {
            if o.len() < length {
                SpecResult::Incomplete(Needed::Size((length - o.len()) as usize))
            } else {
                match spec_parse_name(data, o) {
                    SpecResult::Done(o2, mname) => match spec_parse_name(data, o2) {
                        SpecResult::Done(o3, rname) => match spec_soa_counters(o3) {
                            SpecResult::Done(_, (serial, refresh, retry, expire, minimum)) => {
                                SpecResult::Done(
                                    o.skip(length as int),
                                    SpecRecord::SOA {
                                        name,
                                        class,
                                        ttl,
                                        mname,
                                        rname,
                                        serial,
                                        refresh,
                                        retry,
                                        expire,
                                        minimum,
                                    },
                                )
                            },
                            SpecResult::Error(e) => SpecResult::Error(e),
                            SpecResult::Incomplete(n) => SpecResult::Incomplete(n),
                        },
                        SpecResult::Error(e) => SpecResult::Error(e),
                        SpecResult::Incomplete(n) => SpecResult::Incomplete(n),
                    },
                    SpecResult::Error(e) => SpecResult::Error(e),
                    SpecResult::Incomplete(n) => SpecResult::Incomplete(n),
                }
            }
        },
        SpecResult::Error(e) => SpecResult::Error(e),
        SpecResult::Incomplete(n) => SpecResult::Incomplete(n),
    }
}

/// Parses an `SOA` record body into a record named `name`.
fn parse_soa<'a>(data: &'a [u8], i: &'a [u8], name: Name) -> (r: IResult<'a, ResourceRecord>)
    requires
        i@.len() <= isize::MAX,
    ensures
        r@ == spec_parse_soa(data@, i@, name@),
{
    match parse_rdata_header(i) {
        IResult::Done(output, (class, ttl, length)) => {
            if output.len() < length {
                let size: usize = length - output.len();
                return IResult::Incomplete(Needed::Size(size));
            }
            match parse_name(data, output) {
                IResult::Done(o2, mname) => match parse_name(data, o2) {
                    IResult::Done(o3, rname) => match parse_soa_counters(o3) {
                        IResult::Done(_, (serial, refresh, retry, expire, minimum)) => {
                            IResult::Done(
                                skip(output, length),
                                ResourceRecord::SOA {
                                    name,
                                    class,
                                    ttl,
                                    mname,
                                    rname,
                                    serial,
                                    refresh,
                                    retry,
                                    expire,
                                    minimum,
                                },
                            )
                        },
                        IResult::Error(e) => IResult::Error(e),
                        IResult::Incomplete(n) => IResult::Incomplete(n),
                    },
                    IResult::Error(e) => IResult::Error(e),
                    IResult::Incomplete(n) => IResult::Incomplete(n),
                },
                IResult::Error(e) => IResult::Error(e),
                IResult::Incomplete(n) => IResult::Incomplete(n),
            }
        },
        IResult::Error(e) => IResult::Error(e),
        IResult::Incomplete(n) => IResult::Incomplete(n),
    }
}

/// What `parse_record` gives for the message `data` and the input `i`: the
/// owner name, the type code, then a body chosen by the type.
pub open spec fn spec_parse_record(data: Seq<u8>, i: Seq<u8>) -> SpecResult<SpecRecord> {
    match spec_parse_name(data, i) {
        SpecResult::Done(output, name) => match spec_parse_type(output) {
            SpecResult::Done(o, rtype) => match rtype {
                Type::A => spec_parse_a(o, name),
                Type::AAAA => spec_parse_aaaa(o, name),
                Type::CNAME => spec_parse_cname(data, o, name),
                Type::SOA => spec_parse_soa(data, o, name),
                Type::Unknown { value } => spec_parse_unknown(o, name, value),
            },
            SpecResult::Error(_) => SpecResult::Error(ErrorKind::Custom(401)),
            SpecResult::Incomplete(n) => SpecResult::Incomplete(n),
        },
        SpecResult::Error(e) => SpecResult::Error(e),
        SpecResult::Incomplete(n) => SpecResult::Incomplete(n),
    }
}

/// Parses a byte stream into a `ResourceRecord`. `i` holds the record;
/// `data` is the whole message, which compression pointers in names refer to.
pub fn parse_record<'a>(data: &'a [u8], i: &'a [u8]) -> (r: IResult<'a, ResourceRecord>)
    requires
        i@.len() <= isize::MAX,
    ensures
        r@ == spec_parse_record(data@, i@),
{
    match parse_name(data, i) {
        IResult::Done(output, name) => match parse_type(output) {
            IResult::Done(output, rtype) => match rtype {
                Type::A => parse_a(output, name),
                Type::AAAA => parse_aaaa(output, name),
                Type::CNAME => parse_cname(data, output, name),
                Type::SOA => parse_soa(data, output, name),
                Type::Unknown { value } => parse_unknown(output, name, value),
            },
            IResult::Error(_) => IResult::Error(ErrorKind::Custom(401)),
            IResult::Incomplete(n) => IResult::Incomplete(n),
        },
        IResult::Error(e) => IResult::Error(e),
        IResult::Incomplete(n) => IResult::Incomplete(n),
    }
}

/// The character of the decimal digit `d`.
pub open spec fn digit_char(d: nat) -> char {
    (d + 48) as char
}

/// The decimal representation of `n`, without leading zeros.
pub open spec fn decimal(n: nat) -> Seq<char>
    decreases n,
{
    if n < 10 {
        seq![digit_char(n)]
    } else {
        decimal(n / 10).push(digit_char(n % 10))
    }
}

/// The text by which a class is displayed.
pub open spec fn class_text(c: Class) -> Seq<char> {
    match c {
        Class::Internet => seq!['I', 'N'],
        Class::Chaos => seq!['C', 'H'],
        Class::Hesoid => seq!['H', 'S'],
        Class::Unknown { value } => seq!['U', 'n', 'k', 'o', 'w', 'n', '('] + decimal(
            value as nat,
        ) + seq![')'],
    }
}

/// Appends the decimal digit `d`.
fn push_digit(s: &mut String, d: u16)
    requires
        d < 10,
    ensures
        final(s)@ == old(s)@.push(digit_char(d as nat)),
{
    match d {
        0 => {
            s.append("0");
            proof {
                reveal_strlit("0");
            }
        },
        1 => {
            s.append("1");
            proof {
                reveal_strlit("1");
            }
        },
        2 => {
            s.append("2");
            proof {
                reveal_strlit("2");
            }
        },
        3 => {
            s.append("3");
            proof {
                reveal_strlit("3");
            }
        },
        4 => {
            s.append("4");
            proof {
                reveal_strlit("4");
            }
        },
        5 => {
            s.append("5");
            proof {
                reveal_strlit("5");
            }
        },
        6 => {
            s.append("6");
            proof {
                reveal_strlit("6");
            }
        },
        7 => {
            s.append("7");
            proof {
                reveal_strlit("7");
            }
        },
        8 => {
            s.append("8");
            proof {
                reveal_strlit("8");
            }
        },
        _ => {
            s.append("9");
            proof {
                reveal_strlit("9");
            }
        },
    }
    assert(s@ =~= old(s)@.push(digit_char(d as nat)));
}

/// Appends the decimal representation of `n`.
fn push_decimal(s: &mut String, n: u16)
    ensures
        final(s)@ == old(s)@ + decimal(n as nat),
    decreases n,
{
    if n >= 10 {
        push_decimal(s, n / 10);
    }
    push_digit(s, n % 10);
    assert(s@ =~= old(s)@ + decimal(n as nat));
}

impl Class {
    /// The text by which this class is displayed: `IN`, `CH`, `HS`, or
    /// `Unkown(<code>)` for another code.
    pub fn to_text(&self) -> (t: String)
        ensures
            t@ == class_text(*self),
    {
        match *self {
            Class::Internet => {
                let t = String::from_str("IN");
                proof {
                    reveal_strlit("IN");
                }
                t
            },
            Class::Chaos => {
                let t = String::from_str("CH");
                proof {
                    reveal_strlit("CH");
                }
                t
            },
            Class::Hesoid => {
                let t = String::from_str("HS");
                proof {
                    reveal_strlit("HS");
                }
                t
            },
            Class::Unknown { value: x } => {
                let mut t = String::from_str("Unkown(");
                proof {
                    reveal_strlit("Unkown(");
                }
                push_decimal(&mut t, x);
                t.append(")");
                proof {
                    reveal_strlit(")");
                }
                assert(t@ =~= class_text(*self));
                t
            },
        }
    }
}

proof fn lemma_type_extend(i: Seq<u8>, extra: Seq<u8>)
    ensures
        stable_under_extension(spec_parse_type(i), spec_parse_type(i + extra), extra),
{
    if i.len() >= 2 {
        lemma_concat_prefix(i, extra, 2, 2);
    }
}

proof fn lemma_rdata_header_extend(i: Seq<u8>, extra: Seq<u8>)
    ensures
        stable_under_extension(spec_rdata_header(i), spec_rdata_header(i + extra), extra),
{
    if i.len() >= 8 {
        lemma_concat_prefix(i, extra, 8, 8);
    }
}

proof fn lemma_body_a_extend(i: Seq<u8>, extra: Seq<u8>)
    ensures
        stable_under_extension(spec_body_a(i), spec_body_a(i + extra), extra),
{
    if i.len() >= 12 {
        lemma_concat_prefix(i, extra, 8, 12);
        lemma_concat_prefix(i, extra, 12, 12);
    } else if i.len() >= 6 {
        lemma_concat_prefix(i, extra, 6, 6);
    }
}

proof fn lemma_body_aaaa_extend(i: Seq<u8>, extra: Seq<u8>)
    ensures
        stable_under_extension(spec_body_aaaa(i), spec_body_aaaa(i + extra), extra),
{
    if i.len() >= 24 {
        lemma_concat_prefix(i, extra, 24, 24);
        assert(aaaa_segments(i + extra) =~= aaaa_segments(i));
    } else if i.len() >= 6 {
        lemma_concat_prefix(i, extra, 6, 6);
    }
}

proof fn lemma_body_unknown_extend(i: Seq<u8>, extra: Seq<u8>)
    ensures
        stable_under_extension(spec_body_unknown(i), spec_body_unknown(i + extra), extra),
{
    if i.len() >= 8 {
        lemma_concat_prefix(i, extra, 8, 8);
        let l = u16_at(i, 6);
        if i.len() >= 8 + l {
            lemma_concat_prefix(i, extra, 8, 8 + l);
            lemma_concat_prefix(i, extra, 8 + l, 8 + l);
        }
    }
}

proof fn lemma_soa_counters_extend(i: Seq<u8>, extra: Seq<u8>)
    ensures
        stable_under_extension(spec_soa_counters(i), spec_soa_counters(i + extra), extra),
{
    if i.len() >= 20 {
        lemma_concat_prefix(i, extra, 20, 20);
    }
}

proof fn lemma_cname_extend(data: Seq<u8>, i: Seq<u8>, extra: Seq<u8>, name: Seq<Seq<u8>>)
    ensures
        stable_under_extension(
            spec_parse_cname(data, i, name),
            spec_parse_cname(data, i + extra, name),
            extra,
        ),
{
    lemma_rdata_header_extend(i, extra);
    if let SpecResult::Done(o, (class, ttl, length)) = spec_rdata_header(i) {
        if o.len() >= length {
            lemma_parse_name_extend(data, o, extra);
            lemma_concat_prefix(o, extra, length as int, length as int);
        }
    }
}

proof fn lemma_soa_extend(data: Seq<u8>, i: Seq<u8>, extra: Seq<u8>, name: Seq<Seq<u8>>)
    ensures
        stable_under_extension(
            spec_parse_soa(data, i, name),
            spec_parse_soa(data, i + extra, name),
            extra,
        ),
{
    lemma_rdata_header_extend(i, extra);
    if let SpecResult::Done(o, (class, ttl, length)) = spec_rdata_header(i) {
        if o.len() >= length {
            lemma_concat_prefix(o, extra, length as int, length as int);
            lemma_parse_name_extend(data, o, extra);
            if let SpecResult::Done(o2, mname) = spec_parse_name(data, o) {
                lemma_parse_name_extend(data, o2, extra);
                if let SpecResult::Done(o3, rname) = spec_parse_name(data, o2) {
                    lemma_soa_counters_extend(o3, extra);
                }
            }
        }
    }
}

/// A record that was parsed, or rejected, stays so when more bytes follow
/// it: the same record is returned and the extra bytes are left over.
pub proof fn lemma_parse_record_extend(data: Seq<u8>, i: Seq<u8>, extra: Seq<u8>)
    ensures
        stable_under_extension(
            spec_parse_record(data, i),
            spec_parse_record(data, i + extra),
            extra,
        ),
{
    lemma_parse_name_extend(data, i, extra);
    if let SpecResult::Done(output, name) = spec_parse_name(data, i) {
        lemma_type_extend(output, extra);
        if let SpecResult::Done(o, rtype) = spec_parse_type(output) {
            match rtype {
                Type::A => lemma_body_a_extend(o, extra),
                Type::AAAA => lemma_body_aaaa_extend(o, extra),
                Type::CNAME => lemma_cname_extend(data, o, extra, name),
                Type::SOA => lemma_soa_extend(data, o, extra, name),
                Type::Unknown { value } => lemma_body_unknown_extend(o, extra),
            }
        }
    }
}

/// A parsed record ends exactly where its RDLENGTH field says: after the
/// owner name come type, class, TTL and RDLENGTH (ten bytes), then RDLENGTH
/// bytes of data, whatever the type. What remains is a suffix of the input.
pub proof fn lemma_record_ends_after_rdata(data: Seq<u8>, i: Seq<u8>)
    ensures
        spec_parse_record(data, i) matches SpecResult::Done(rest, _) ==> {
            &&& spec_parse_name(data, i) matches SpecResult::Done(o, _)
            &&& 10 + u16_at(o, 8) <= o.len()
            &&& rest == o.skip(10 + u16_at(o, 8))
            &&& rest == i.skip(i.len() - rest.len())
        },
{
    lemma_parse_name_suffix(data, i);
    if let SpecResult::Done(rest, _) = spec_parse_record(data, i) {
        let o = spec_parse_name(data, i)->Done_0;
        let b = o.skip(2);
        let l = u16_at(o, 8);
        assert(b[6] == o[8] && b[7] == o[9]);
        assert(u16_at(b, 6) == l);
        match spec_type_from(u16_at(o, 0)) {
            Type::A => {
                assert(rest =~= o.skip(10 + l));
            },
            Type::AAAA => {
                assert(rest =~= o.skip(10 + l));
            },
            Type::CNAME => {
                assert(rest =~= o.skip(10 + l));
            },
            Type::SOA => {
                assert(rest =~= o.skip(10 + l));
            },
            Type::Unknown { value } => {
                assert(rest =~= o.skip(10 + l));
            },
        }
        assert(rest =~= i.skip(i.len() - rest.len()));
    }
}

/// Distinct type codes give distinct types: `type_from` loses nothing.
pub proof fn lemma_type_from_injective(a: u16, b: u16)
    ensures
        spec_type_from(a) == spec_type_from(b) ==> a == b,
{
}

/// Distinct class codes give distinct classes.
pub proof fn lemma_class_from_injective(a: u16, b: u16)
    ensures
        spec_class_from(a) == spec_class_from(b) ==> a == b,
{
}

} // verus!
