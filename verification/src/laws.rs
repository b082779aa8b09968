//! What a parsed record holds, stated directly over the bytes of its input.
//!
//! Each law reads the wire format as RFC 1035 (section 4.1.3) lays it out:
//! after the owner name come TYPE (two bytes), CLASS (two bytes), TTL (four
//! bytes, two's complement), RDLENGTH (two bytes) and RDATA. Numbers are
//! big-endian. The arithmetic below is written out over the bytes.
use vstd::prelude::*;
use crate::names::spec_parse_name;
use crate::result::{ErrorKind, Needed, SpecResult};
use crate::rr::{class_text, decimal, Class, SpecRecord, Type, spec_parse_class, spec_parse_record, spec_parse_type, spec_type_from};

verus! {

/// The big-endian 16-bit number of the bytes `s[k]`, `s[k + 1]`.
pub open spec fn be16(s: Seq<u8>, k: int) -> int {
    s[k] * 256 + s[k + 1]
}

/// The big-endian 32-bit number of the bytes `s[k]` to `s[k + 3]`.
pub open spec fn be32(s: Seq<u8>, k: int) -> int {
    s[k] * 16777216 + s[k + 1] * 65536 + s[k + 2] * 256 + s[k + 3]
}

/// The two's complement reading of a 32-bit number.
pub open spec fn signed32(v: int) -> int {
    if v < 2147483648 {
        v
    } else {
        v - 4294967296
    }
}

/// The class that RFC 1035 and RFC 2929 assign to a class code: 1 is IN,
/// 3 is CH, 4 is HS; any other code is kept as it is.
pub open spec fn class_of_code(code: int) -> Class {
    if code == 1 {
        Class::Internet
    } else if code == 3 {
        Class::Chaos
    } else if code == 4 {
        Class::Hesoid
    } else {
        Class::Unknown { value: code as u16 }
    }
}

/// The owner name of a record.
pub open spec fn owner(r: SpecRecord) -> Seq<Seq<u8>> {
    match r {
        SpecRecord::A { name, .. } => name,
        SpecRecord::AAAA { name, .. } => name,
        SpecRecord::CNAME { name, .. } => name,
        SpecRecord::SOA { name, .. } => name,
        SpecRecord::Unknown { name, .. } => name,
    }
}

/// The class of a record.
pub open spec fn class_of(r: SpecRecord) -> Class {
    match r {
        SpecRecord::A { class, .. } => class,
        SpecRecord::AAAA { class, .. } => class,
        SpecRecord::CNAME { class, .. } => class,
        SpecRecord::SOA { class, .. } => class,
        SpecRecord::Unknown { class, .. } => class,
    }
}

/// The time to live of a record.
pub open spec fn ttl_of(r: SpecRecord) -> i32 {
    match r {
        SpecRecord::A { ttl, .. } => ttl,
        SpecRecord::AAAA { ttl, .. } => ttl,
        SpecRecord::CNAME { ttl, .. } => ttl,
        SpecRecord::SOA { ttl, .. } => ttl,
        SpecRecord::Unknown { ttl, .. } => ttl,
    }
}

/// What follows the owner name at the start of `i`.
pub open spec fn after_owner(data: Seq<u8>, i: Seq<u8>) -> Seq<u8> {
    spec_parse_name(data, i)->Done_0
}

/// Every parsed record, of whatever type, is owned by the name that starts
/// its input.
pub proof fn lemma_record_owner(data: Seq<u8>, i: Seq<u8>)
    ensures
        spec_parse_record(data, i) matches SpecResult::Done(_, r) ==> {
            &&& spec_parse_name(data, i) is Done
            &&& owner(r) == spec_parse_name(data, i)->Done_1
        },
{
}

/// The kind of a parsed record is the one its TYPE code names: 1 is A,
/// 28 is AAAA, 5 is CNAME, 6 is SOA; a record of any other code is kept as
/// an unknown record of that code.
pub proof fn lemma_record_kind(data: Seq<u8>, i: Seq<u8>)
    ensures
        spec_parse_record(data, i) matches SpecResult::Done(_, r) ==> {
            let o = after_owner(data, i);
            &&& spec_parse_name(data, i) is Done
            &&& o.len() >= 10
            &&& (r is A <==> be16(o, 0) == 1)
            &&& (r is AAAA <==> be16(o, 0) == 28)
            &&& (r is CNAME <==> be16(o, 0) == 5)
            &&& (r is SOA <==> be16(o, 0) == 6)
            &&& (r matches SpecRecord::Unknown { rtype, .. } ==> rtype == be16(o, 0))
        },
{
    if let SpecResult::Done(_, r) = spec_parse_record(data, i) {
        let o = after_owner(data, i);
        let b = o.skip(2);
        assert(b[0] == o[2] && b[1] == o[3] && b[6] == o[8] && b[7] == o[9]);
    }
}

/// A parsed record's class is the one its CLASS code names, and its time
/// to live is the two's complement reading of its TTL bytes.
pub proof fn lemma_record_class_and_ttl(data: Seq<u8>, i: Seq<u8>)
    ensures
        spec_parse_record(data, i) matches SpecResult::Done(_, r) ==> {
            let o = after_owner(data, i);
            &&& spec_parse_name(data, i) is Done
            &&& o.len() >= 10
            &&& class_of(r) == class_of_code(be16(o, 2))
            &&& ttl_of(r) as int == signed32(be32(o, 4))
        },
{
    if let SpecResult::Done(_, r) = spec_parse_record(data, i) {
        let o = after_owner(data, i);
        let b = o.skip(2);
        assert(b[0] == o[2] && b[1] == o[3] && b[2] == o[4] && b[3] == o[5]);
        assert(b[4] == o[6] && b[5] == o[7] && b[6] == o[8] && b[7] == o[9]);
    }
}

/// An A record's address is its four RDATA bytes in wire order.
pub proof fn lemma_a_address(data: Seq<u8>, i: Seq<u8>)
    ensures
        spec_parse_record(data, i) matches SpecResult::Done(_, SpecRecord::A { addr, .. }) ==> {
            let o = after_owner(data, i);
            &&& spec_parse_name(data, i) is Done
            &&& o.len() >= 14
            &&& be16(o, 8) == 4
            &&& addr == o.subrange(10, 14)
        },
{
    if let SpecResult::Done(_, SpecRecord::A { addr, .. }) = spec_parse_record(data, i) {
        let o = after_owner(data, i);
        let b = o.skip(2);
        assert(b[6] == o[8] && b[7] == o[9]);
        assert(addr =~= o.subrange(10, 14));
    }
}

/// An AAAA record's address is its sixteen RDATA bytes read as eight
/// big-endian 16-bit segments in wire order.
pub proof fn lemma_aaaa_address(data: Seq<u8>, i: Seq<u8>)
    ensures
        spec_parse_record(data, i) matches SpecResult::Done(_, SpecRecord::AAAA { addr, .. }) ==> {
            let o = after_owner(data, i);
            &&& spec_parse_name(data, i) is Done
            &&& o.len() >= 26
            &&& be16(o, 8) == 16
            &&& addr.len() == 8
            &&& forall|k: int| 0 <= k < 8 ==> #[trigger] addr[k] == be16(o, 10 + 2 * k)
        },
{
    if let SpecResult::Done(_, SpecRecord::AAAA { addr, .. }) = spec_parse_record(data, i) {
        let o = after_owner(data, i);
        let b = o.skip(2);
        assert(b[6] == o[8] && b[7] == o[9]);
        assert forall|k: int| 0 <= k < 8 implies #[trigger] addr[k] == be16(o, 10 + 2 * k) by {
            assert(b[8 + 2 * k] == o[10 + 2 * k] && b[9 + 2 * k] == o[11 + 2 * k]);
        }
    }
}

/// A CNAME record's canonical name is the name that starts its RDATA.
pub proof fn lemma_cname_target(data: Seq<u8>, i: Seq<u8>)
    ensures
        spec_parse_record(data, i) matches SpecResult::Done(_, SpecRecord::CNAME { cname, .. })
            ==> {
            let o = after_owner(data, i);
            &&& spec_parse_name(data, i) is Done
            &&& o.len() >= 10
            &&& spec_parse_name(data, o.skip(10)) is Done
            &&& cname == spec_parse_name(data, o.skip(10))->Done_1
        },
{
    if let SpecResult::Done(_, SpecRecord::CNAME { cname, .. }) = spec_parse_record(data, i) {
        let o = after_owner(data, i);
        assert(o.skip(2).skip(8) =~= o.skip(10));
    }
}

/// An SOA record's RDATA is MNAME, then RNAME, then SERIAL, REFRESH, RETRY,
/// EXPIRE and MINIMUM as big-endian 32-bit numbers.
pub proof fn lemma_soa_fields(data: Seq<u8>, i: Seq<u8>)
    ensures
        spec_parse_record(data, i) matches SpecResult::Done(
            _,
            SpecRecord::SOA { mname, rname, serial, refresh, retry, expire, minimum, .. },
        ) ==> {
            let o = after_owner(data, i);
            let m = spec_parse_name(data, o.skip(10));
            let r = spec_parse_name(data, m->Done_0);
            let c = r->Done_0;
            &&& spec_parse_name(data, i) is Done
            &&& o.len() >= 10
            &&& m is Done
            &&& mname == m->Done_1
            &&& r is Done
            &&& rname == r->Done_1
            &&& c.len() >= 20
            &&& serial == be32(c, 0)
            &&& refresh == be32(c, 4)
            &&& retry == be32(c, 8)
            &&& expire == be32(c, 12)
            &&& minimum == be32(c, 16)
        },
{
    if let SpecResult::Done(_, SpecRecord::SOA { .. }) = spec_parse_record(data, i) {
        let o = after_owner(data, i);
        assert(o.skip(2).skip(8) =~= o.skip(10));
    }
}

/// A record of unknown type keeps exactly its RDLENGTH bytes of RDATA.
pub proof fn lemma_unknown_data(data: Seq<u8>, i: Seq<u8>)
    ensures
        spec_parse_record(data, i) matches SpecResult::Done(
            _,
            SpecRecord::Unknown { data: rdata, .. },
        ) ==> {
            let o = after_owner(data, i);
            &&& spec_parse_name(data, i) is Done
            &&& 10 + be16(o, 8) <= o.len()
            &&& rdata == o.subrange(10, 10 + be16(o, 8))
        },
{
    if let SpecResult::Done(_, SpecRecord::Unknown { data: rdata, .. }) = spec_parse_record(
        data,
        i,
    ) {
        let o = after_owner(data, i);
        let b = o.skip(2);
        assert(b[6] == o[8] && b[7] == o[9]);
        assert(rdata =~= o.subrange(10, 10 + be16(o, 8)));
    }
}

/// The type that RFC 1035 and RFC 3596 assign to a type code: 1 is A,
/// 28 is AAAA, 5 is CNAME, 6 is SOA; any other code is kept as it is.
pub open spec fn type_of_code(code: int) -> Type {
    if code == 1 {
        Type::A
    } else if code == 28 {
        Type::AAAA
    } else if code == 5 {
        Type::CNAME
    } else if code == 6 {
        Type::SOA
    } else {
        Type::Unknown { value: code as u16 }
    }
}

/// `type_from` names each code as the standard does and keeps other codes.
pub proof fn lemma_type_from_codes(v: u16)
    ensures
        spec_type_from(v) == type_of_code(v as int),
{
}

/// `parse_type` reads the type of its first two bytes and leaves the rest;
/// with fewer bytes it asks for two.
pub proof fn lemma_parse_type_reads_two_bytes(i: Seq<u8>)
    ensures
        i.len() >= 2 ==> spec_parse_type(i) == SpecResult::Done(i.skip(2), type_of_code(be16(i, 0))),
        i.len() < 2 ==> spec_parse_type(i) is Incomplete,
{
}

/// `parse_class` reads the class of its first two bytes and leaves the
/// rest; with fewer bytes it asks for two.
pub proof fn lemma_parse_class_reads_two_bytes(i: Seq<u8>)
    ensures
        i.len() >= 2 ==> spec_parse_class(i) == SpecResult::Done(
            i.skip(2),
            class_of_code(be16(i, 0)),
        ),
        i.len() < 2 ==> spec_parse_class(i) is Incomplete,
{
}

/// A parsed record takes up its owner name, ten bytes of TYPE, CLASS, TTL
/// and RDLENGTH, and RDLENGTH bytes of RDATA; the rest of the input is
/// left over.
pub proof fn lemma_record_length(data: Seq<u8>, i: Seq<u8>)
    ensures
        spec_parse_record(data, i) matches SpecResult::Done(rest, _) ==> {
            let o = after_owner(data, i);
            &&& spec_parse_name(data, i) is Done
            &&& 10 + be16(o, 8) <= o.len()
            &&& rest == o.skip(10 + be16(o, 8))
        },
{
    if let SpecResult::Done(rest, _) = spec_parse_record(data, i) {
        let o = after_owner(data, i);
        let b = o.skip(2);
        assert(b[6] == o[8] && b[7] == o[9]);
        assert(rest =~= o.skip(10 + be16(o, 8)));
    }
}

/// An A record whose fixed fields are all present is parsed when its
/// RDLENGTH is 4 and its four address bytes are present, and rejected with
/// code 403 when its RDLENGTH is not 4.
pub proof fn lemma_a_outcome(data: Seq<u8>, i: Seq<u8>)
    ensures
        ({
            let o = after_owner(data, i);
            spec_parse_name(data, i) is Done && o.len() >= 10 && be16(o, 0) == 1
        }) ==> {
            let o = after_owner(data, i);
            &&& be16(o, 8) != 4 ==> spec_parse_record(data, i) == SpecResult::<SpecRecord>::Error(
                ErrorKind::Custom(403),
            )
            &&& be16(o, 8) == 4 && o.len() >= 14 ==> spec_parse_record(data, i) is Done
        },
{
    let o = after_owner(data, i);
    if spec_parse_name(data, i) is Done && o.len() >= 10 {
        let b = o.skip(2);
        assert(b[0] == o[2] && b[6] == o[8] && b[7] == o[9]);
    }
}

/// An AAAA record whose fixed fields are all present is parsed when its
/// RDLENGTH is 16 and its sixteen address bytes are present, and rejected
/// with code 405 when its RDLENGTH is not 16.
pub proof fn lemma_aaaa_outcome(data: Seq<u8>, i: Seq<u8>)
    ensures
        ({
            let o = after_owner(data, i);
            spec_parse_name(data, i) is Done && o.len() >= 10 && be16(o, 0) == 28
        }) ==> {
            let o = after_owner(data, i);
            &&& be16(o, 8) != 16 ==> spec_parse_record(data, i) == SpecResult::<SpecRecord>::Error(
                ErrorKind::Custom(405),
            )
            &&& be16(o, 8) == 16 && o.len() >= 26 ==> spec_parse_record(data, i) is Done
        },
{
    let o = after_owner(data, i);
    if spec_parse_name(data, i) is Done && o.len() >= 10 {
        let b = o.skip(2);
        assert(b[0] == o[2] && b[6] == o[8] && b[7] == o[9]);
    }
}

/// A record of a type this library does not know is parsed exactly when
/// its fixed fields and all RDLENGTH bytes of RDATA are present.
pub proof fn lemma_unknown_outcome(data: Seq<u8>, i: Seq<u8>)
    ensures
        ({
            let o = after_owner(data, i);
            &&& spec_parse_name(data, i) is Done
            &&& o.len() >= 2
            &&& type_of_code(be16(o, 0)) is Unknown
        }) ==> {
            let o = after_owner(data, i);
            spec_parse_record(data, i) is Done <==> o.len() >= 10 && 10 + be16(o, 8) <= o.len()
        },
{
    let o = after_owner(data, i);
    if spec_parse_name(data, i) is Done && o.len() >= 2 {
        let b = o.skip(2);
        if o.len() >= 10 {
            assert(b[6] == o[8] && b[7] == o[9]);
        }
    }
}

/// A CNAME record whose fixed fields and RDATA are present is parsed
/// exactly when a name can be read at the start of its RDATA.
pub proof fn lemma_cname_outcome(data: Seq<u8>, i: Seq<u8>)
    ensures
        ({
            let o = after_owner(data, i);
            &&& spec_parse_name(data, i) is Done
            &&& o.len() >= 10
            &&& be16(o, 0) == 5
            &&& 10 + be16(o, 8) <= o.len()
        }) ==> {
            let o = after_owner(data, i);
            spec_parse_record(data, i) is Done <==> spec_parse_name(data, o.skip(10)) is Done
        },
{
    let o = after_owner(data, i);
    if spec_parse_name(data, i) is Done && o.len() >= 10 {
        let b = o.skip(2);
        assert(b[6] == o[8] && b[7] == o[9]);
        assert(o.skip(2).skip(8) =~= o.skip(10));
    }
}

/// Whether `n` is the end of the first field, among those ending at
/// `ends`, that a body of `len` bytes does not hold completely.
pub open spec fn first_cut_field_end(ends: Seq<int>, len: int, n: int) -> bool {
    &&& ends.contains(n)
    &&& n > len
    &&& forall|j: int| 0 <= j < ends.len() && #[trigger] ends[j] > len ==> ends[j] >= n
}

/// Where the fields of an A body end: CLASS, TTL, RDLENGTH, then the four
/// address bytes one by one.
pub open spec fn a_field_ends() -> Seq<int> {
    seq![2, 6, 8, 9, 10, 11, 12]
}

/// Where the fields of an AAAA body end: CLASS, TTL, RDLENGTH, then the
/// eight address segments one by one.
pub open spec fn aaaa_field_ends() -> Seq<int> {
    seq![2int, 6, 8] + Seq::new(8, |k: int| 10 + 2 * k)
}

/// Where the fields of the body of a record of unknown type end: CLASS,
/// TTL, RDLENGTH, then RDATA of `rdlength` bytes.
pub open spec fn unknown_field_ends(rdlength: int) -> Seq<int> {
    seq![2, 6, 8, 8 + rdlength]
}

/// When an A, AAAA or unknown-type record needs more input after its type
/// code, it asks for the bytes up to the end of the first field that is
/// cut off, counted from the start of the body after the type code.
pub proof fn lemma_body_needs_first_cut_field(data: Seq<u8>, i: Seq<u8>)
    ensures
        ({
            let o = after_owner(data, i);
            &&& spec_parse_name(data, i) is Done
            &&& o.len() >= 2
            &&& spec_parse_record(data, i) is Incomplete
        }) ==> {
            let o = after_owner(data, i);
            let b = o.skip(2);
            let n = spec_parse_record(data, i)->Incomplete_0->Size_0 as int;
            &&& be16(o, 0) == 1 ==> first_cut_field_end(a_field_ends(), b.len() as int, n)
            &&& be16(o, 0) == 28 ==> first_cut_field_end(aaaa_field_ends(), b.len() as int, n)
            &&& type_of_code(be16(o, 0)) is Unknown ==> first_cut_field_end(
                unknown_field_ends(if b.len() >= 8 { be16(b, 6) } else { 0 }),
                b.len() as int,
                n,
            )
        },
{
    let o = after_owner(data, i);
    if spec_parse_name(data, i) is Done && o.len() >= 2 && spec_parse_record(data, i) is Incomplete {
        let b = o.skip(2);
        let len = b.len() as int;
        let n = spec_parse_record(data, i)->Incomplete_0->Size_0 as int;
        if be16(o, 0) == 1 {
            let e = a_field_ends();
            if len < 2 {
                assert(e[0] == n);
            } else if len < 6 {
                assert(e[1] == n);
            } else if len < 8 {
                assert(e[2] == n);
            } else {
                assert(e[len - 5] == n);
            }
        } else if be16(o, 0) == 28 {
            let e = aaaa_field_ends();
            if len < 2 {
                assert(e[0] == n);
            } else if len < 6 {
                assert(e[1] == n);
            } else if len < 8 {
                assert(e[2] == n);
            } else {
                let k = (len - 8) / 2;
                assert(e[3 + k] == 10 + 2 * k);
                assert(e[3 + k] == n);
                assert forall|j: int| 0 <= j < e.len() && #[trigger] e[j] > len implies e[j] >= n by {
                    if j >= 3 {
                        assert(e[j] == 10 + 2 * (j - 3));
                    }
                }
            }
        } else if type_of_code(be16(o, 0)) is Unknown {
            let e = unknown_field_ends(if b.len() >= 8 { be16(b, 6) } else { 0 });
            if len < 2 {
                assert(e[0] == n);
            } else if len < 6 {
                assert(e[1] == n);
            } else if len < 8 {
                assert(e[2] == n);
            } else {
                assert(e[3] == n);
            }
        }
    }
}

/// Whether a character is one of the decimal digits `0` to `9`.
pub open spec fn is_digit(c: char) -> bool {
    '0' <= c <= '9'
}

/// The number a string of decimal digits denotes.
pub open spec fn digits_value(d: Seq<char>) -> int
    decreases d.len(),
{
    if d.len() == 0 {
        0
    } else {
        digits_value(d.drop_last()) * 10 + (d.last() as int - '0' as int)
    }
}

proof fn lemma_decimal_reads_back(n: nat)
    ensures
        decimal(n).len() >= 1,
        forall|k: int| 0 <= k < decimal(n).len() ==> is_digit(#[trigger] decimal(n)[k]),
        n >= 10 ==> decimal(n)[0] != '0',
        digits_value(decimal(n)) == n,
    decreases n,
{
    if n < 10 {
        assert(decimal(n).last() as int == n + 48);
        assert(decimal(n).drop_last() =~= Seq::<char>::empty());
        assert(digits_value(Seq::<char>::empty()) == 0);
        assert(digits_value(decimal(n)) == n);
    } else {
        lemma_decimal_reads_back(n / 10);
        let d = decimal(n);
        assert(d.drop_last() =~= decimal(n / 10));
        assert(d.last() as int == n % 10 + 48);
        assert(digits_value(d) == digits_value(decimal(n / 10)) * 10 + n % 10);
        assert(digits_value(d) == (n / 10) * 10 + n % 10);
        assert((n / 10) * 10 + n % 10 == n) by (nonlinear_arith);
        if n / 10 < 10 {
            assert(n / 10 >= 1) by (nonlinear_arith)
                requires
                    n >= 10,
            ;
        }
    }
}

/// A class is displayed as `IN`, `CH` or `HS`, and any other code as
/// `Unkown(` followed by the code in decimal digits, without leading
/// zeros, and `)`.
pub proof fn lemma_class_text(c: Class)
    ensures
        c == Class::Internet ==> class_text(c) == seq!['I', 'N'],
        c == Class::Chaos ==> class_text(c) == seq!['C', 'H'],
        c == Class::Hesoid ==> class_text(c) == seq!['H', 'S'],
        c matches Class::Unknown { value } ==> {
            let t = class_text(c);
            let d = t.subrange(7, t.len() - 1);
            &&& t.len() >= 9
            &&& t.subrange(0, 7) == seq!['U', 'n', 'k', 'o', 'w', 'n', '(']
            &&& t.last() == ')'
            &&& forall|k: int| 0 <= k < d.len() ==> is_digit(#[trigger] d[k])
            &&& (d.len() > 1 ==> d[0] != '0')
            &&& digits_value(d) == value
        },
{
    if let Class::Unknown { value } = c {
        lemma_decimal_reads_back(value as nat);
        let t = class_text(c);
        let d = decimal(value as nat);
        assert(t.subrange(7, t.len() - 1) =~= d);
        assert(t.subrange(0, 7) =~= seq!['U', 'n', 'k', 'o', 'w', 'n', '(']);
        if d.len() > 1 {
            assert(value >= 10);
        }
    }
}

/// A CNAME or SOA record whose fixed fields are present but whose RDATA is
/// cut off asks for the number of RDATA bytes that are missing.
pub proof fn lemma_rdata_missing(data: Seq<u8>, i: Seq<u8>)
    ensures
        ({
            let o = after_owner(data, i);
            &&& spec_parse_name(data, i) is Done
            &&& o.len() >= 10
            &&& (be16(o, 0) == 5 || be16(o, 0) == 6)
            &&& 10 + be16(o, 8) > o.len()
        }) ==> {
            let o = after_owner(data, i);
            spec_parse_record(data, i) == SpecResult::<SpecRecord>::Incomplete(
                Needed::Size((10 + be16(o, 8) - o.len()) as usize),
            )
        },
{
    let o = after_owner(data, i);
    if spec_parse_name(data, i) is Done && o.len() >= 10 {
        let b = o.skip(2);
        assert(b[0] == o[2] && b[6] == o[8] && b[7] == o[9]);
    }
}

/// An SOA record whose RDATA is present and whose two names are read, but
/// whose five counters are cut off by the end of the input, asks for the
/// bytes up to the end of the first counter that is cut off, counted from
/// the first counter.
pub proof fn lemma_soa_counters_missing(data: Seq<u8>, i: Seq<u8>)
    ensures
        ({
            let o = after_owner(data, i);
            let m = spec_parse_name(data, o.skip(10));
            let r = spec_parse_name(data, m->Done_0);
            &&& spec_parse_name(data, i) is Done
            &&& o.len() >= 10
            &&& be16(o, 0) == 6
            &&& 10 + be16(o, 8) <= o.len()
            &&& m is Done
            &&& r is Done
            &&& r->Done_0.len() < 20
        }) ==> {
            let o = after_owner(data, i);
            let c = spec_parse_name(data, spec_parse_name(data, o.skip(10))->Done_0)->Done_0;
            &&& spec_parse_record(data, i) is Incomplete
            &&& first_cut_field_end(
                seq![4, 8, 12, 16, 20],
                c.len() as int,
                spec_parse_record(data, i)->Incomplete_0->Size_0 as int,
            )
        },
{
    let o = after_owner(data, i);
    if spec_parse_name(data, i) is Done && o.len() >= 10 {
        let b = o.skip(2);
        assert(b[0] == o[2] && b[6] == o[8] && b[7] == o[9]);
        assert(o.skip(2).skip(8) =~= o.skip(10));
        let m = spec_parse_name(data, o.skip(10));
        if m is Done {
            let r = spec_parse_name(data, m->Done_0);
            if r is Done && r->Done_0.len() < 20 {
                let len = r->Done_0.len() as int;
                let e = seq![4int, 8, 12, 16, 20];
                assert(e[len / 4] == 4 * (len / 4 + 1));
            }
        }
    }
}

} // verus!
