use lib::names::Name;
use lib::result::{ErrorKind, IResult, Needed};
use lib::rr::{Class, ResourceRecord, Type, parse_class, parse_record, parse_type, type_from};
use lib::result::IResult::Done;

fn foo_bar() -> Name {
    Name::from_labels(vec![b"FOO".to_vec(), b"BAR".to_vec()])
}

#[test]
fn parse_type_bytes() {
    let a = b"\x00\x01abcd";
    let aaaa = b"\x00\x1cabcd";
    let cname = b"\x00\x05abcd";
    let md_deprecated = b"\x00\x03abcd";

    assert_eq!(parse_type(&a[..]), Done(&b"abcd"[..], Type::A));
    assert_eq!(parse_type(&aaaa[..]), Done(&b"abcd"[..], Type::AAAA));
    assert_eq!(parse_type(&cname[..]), Done(&b"abcd"[..], Type::CNAME));
    assert_eq!(parse_type(&md_deprecated[..]), Done(&b"abcd"[..], Type::Unknown { value: 3 }));
}

#[test]
fn parse_class_bytes() {
    let a = b"\x00\x01abcd";
    let b = b"\x00\x02abcd";
    let c = b"\x00\x03abcd";
    let d = b"\x00\x04abcd";

    assert_eq!(parse_class(&a[..]), Done(&b"abcd"[..], Class::Internet));
    assert_eq!(parse_class(&c[..]), Done(&b"abcd"[..], Class::Chaos));
    assert_eq!(parse_class(&d[..]), Done(&b"abcd"[..], Class::Hesoid));
    assert_eq!(parse_class(&b[..]), Done(&b"abcd"[..], Class::Unknown { value: 2 }));
}

#[test]
fn parse_a_record() {
    let src = b"\x03FOO\x03BAR\x00\x00\x01\x00\x01\x00\x00\x0e\x10\x00\x04\x7f\x00\x00\x01";
    assert_eq!(
        parse_record(&src[..], &src[..]),
        Done(
            &b""[..],
            ResourceRecord::A {
                name: foo_bar(),
                class: Class::Internet,
                ttl: 3600,
                addr: [127, 0, 0, 1],
            }
        )
    );
}

#[test]
fn parse_aaaa_record() {
    let src = b"\x03FOO\x03BAR\x00\x00\x1c\x00\x01\x00\x00\x0e\x10\x00\x10\x00\x00\x00\x00\x00\x00\x00\x00\x00\x00\x00\x00\x00\x00\x00\x01";
    assert_eq!(
        parse_record(&src[..], &src[..]),
        Done(
            &b""[..],
            ResourceRecord::AAAA {
                name: foo_bar(),
                class: Class::Internet,
                ttl: 3600,
                addr: [0, 0, 0, 0, 0, 0, 0, 1],
            }
        )
    );
}

#[test]
fn type_codes() {
    assert_eq!(type_from(1), Type::A);
    assert_eq!(type_from(28), Type::AAAA);
    assert_eq!(type_from(5), Type::CNAME);
    assert_eq!(type_from(6), Type::SOA);
    assert_eq!(type_from(0xffff), Type::Unknown { value: 0xffff });
}

#[test]
fn type_and_class_need_two_bytes() {
    assert_eq!(parse_type(&b"\x00"[..]), IResult::Incomplete(Needed::Size(2)));
    assert_eq!(parse_class(&b""[..]), IResult::Incomplete(Needed::Size(2)));
}

#[test]
fn class_text() {
    assert_eq!(Class::Internet.to_text(), "IN");
    assert_eq!(Class::Chaos.to_text(), "CH");
    assert_eq!(Class::Hesoid.to_text(), "HS");
    assert_eq!(Class::Unknown { value: 0 }.to_text(), "Unkown(0)");
    assert_eq!(Class::Unknown { value: 254 }.to_text(), "Unkown(254)");
    assert_eq!(Class::Unknown { value: 65535 }.to_text(), "Unkown(65535)");
}

#[test]
fn negative_ttl_and_trailing_bytes() {
    let src = b"\x00\x00\x01\x00\x03\xff\xff\xff\xfe\x00\x04\x0a\x00\x00\x02xyz";
    assert_eq!(
        parse_record(&src[..], &src[..]),
        Done(
            &b"xyz"[..],
            ResourceRecord::A {
                name: Name::from_labels(vec![]),
                class: Class::Chaos,
                ttl: -2,
                addr: [10, 0, 0, 2],
            }
        )
    );
}

#[test]
fn a_record_with_wrong_length() {
    let src = b"\x00\x00\x01\x00\x01\x00\x00\x0e\x10\x00\x05\x7f\x00\x00\x01\x00";
    assert_eq!(parse_record(&src[..], &src[..]), IResult::Error(ErrorKind::Custom(403)));
    // A mismatch is seen as soon as the first byte of the length is present.
    let short = b"\x00\x00\x01\x00\x01\x00\x00\x0e\x10\x01";
    assert_eq!(parse_record(&short[..], &short[..]), IResult::Error(ErrorKind::Custom(403)));
}

#[test]
fn aaaa_record_with_wrong_length() {
    let src = b"\x00\x00\x1c\x00\x01\x00\x00\x0e\x10\x00\x04\x7f\x00\x00\x01";
    assert_eq!(parse_record(&src[..], &src[..]), IResult::Error(ErrorKind::Custom(405)));
}

#[test]
fn a_record_incomplete_sizes() {
    // Needed sizes count from the start of the record body after the type.
    let cases: [(&[u8], usize); 5] = [
        (b"\x00\x00\x01", 2),
        (b"\x00\x00\x01\x00\x01\x00", 6),
        (b"\x00\x00\x01\x00\x01\x00\x00\x0e\x10\x00", 8),
        (b"\x00\x00\x01\x00\x01\x00\x00\x0e\x10\x00\x04", 9),
        (b"\x00\x00\x01\x00\x01\x00\x00\x0e\x10\x00\x04\x7f\x00", 11),
    ];
    for (src, need) in cases.iter() {
        assert_eq!(parse_record(src, src), IResult::Incomplete(Needed::Size(*need)));
    }
    // The type field itself needs two bytes after the name.
    let src = b"\x00\x00";
    assert_eq!(parse_record(&src[..], &src[..]), IResult::Incomplete(Needed::Size(2)));
}

#[test]
fn aaaa_record_incomplete_sizes() {
    let src = b"\x00\x00\x1c\x00\x01\x00\x00\x0e\x10\x00\x10\x00\x00\x00";
    assert_eq!(parse_record(&src[..], &src[..]), IResult::Incomplete(Needed::Size(12)));
    let src = b"\x00\x00\x1c\x00\x01\x00\x00\x0e\x10\x00\x10\x00\x00\x00\x00";
    assert_eq!(parse_record(&src[..], &src[..]), IResult::Incomplete(Needed::Size(14)));
}

#[test]
fn cname_record_with_compression() {
    // A message whose first name is FOO.BAR., then a CNAME record owned by
    // WWW.<pointer to 0> whose canonical name is <pointer to 0>.
    let msg = b"\x03FOO\x03BAR\x00\x03WWW\xc0\x00\x00\x05\x00\x01\x00\x00\x00\x3c\x00\x02\xc0\x00rest";
    let record = &msg[9..];
    assert_eq!(
        parse_record(&msg[..], record),
        Done(
            &b"rest"[..],
            ResourceRecord::CNAME {
                name: Name::from_labels(vec![b"WWW".to_vec(), b"FOO".to_vec(), b"BAR".to_vec()]),
                class: Class::Internet,
                ttl: 60,
                cname: foo_bar(),
            }
        )
    );
}

#[test]
fn cname_record_needs_rdata() {
    let src = b"\x00\x00\x05\x00\x01\x00\x00\x00\x3c\x00\x05\x00\x00";
    assert_eq!(parse_record(&src[..], &src[..]), IResult::Incomplete(Needed::Size(3)));
}

#[test]
fn soa_record() {
    let src = b"\x00\x00\x06\x00\x01\x00\x00\x00\x3c\x00\x1a\x01a\x00\x01b\x00\
\x00\x00\x00\x01\x00\x00\x00\x02\x00\x00\x00\x03\x00\x00\x00\x04\x00\x00\x00\x05!";
    assert_eq!(
        parse_record(&src[..], &src[..]),
        Done(
            &b"!"[..],
            ResourceRecord::SOA {
                name: Name::from_labels(vec![]),
                class: Class::Internet,
                ttl: 60,
                mname: Name::from_labels(vec![b"a".to_vec()]),
                rname: Name::from_labels(vec![b"b".to_vec()]),
                serial: 1,
                refresh: 2,
                retry: 3,
                expire: 4,
                minimum: 5,
            }
        )
    );
}

#[test]
fn soa_counters_incomplete() {
    // RDLENGTH covers everything present, but the counters stop after six bytes.
    let src = b"\x00\x00\x06\x00\x01\x00\x00\x00\x3c\x00\x0a\x01a\x00\x01b\x00\x00\x00\x00\x01\x00\x00";
    assert_eq!(parse_record(&src[..], &src[..]), IResult::Incomplete(Needed::Size(8)));
}

#[test]
fn unknown_record_keeps_its_data() {
    let src = b"\x00\x00\x10\x00\xfe\x00\x00\x00\x01\x00\x03abcdef";
    assert_eq!(
        parse_record(&src[..], &src[..]),
        Done(
            &b"def"[..],
            ResourceRecord::Unknown {
                name: Name::from_labels(vec![]),
                rtype: 16,
                class: Class::Unknown { value: 254 },
                ttl: 1,
                data: b"abc".to_vec(),
            }
        )
    );
    let short = b"\x00\x00\x10\x00\xfe\x00\x00\x00\x01\x00\x03ab";
    assert_eq!(parse_record(&short[..], &short[..]), IResult::Incomplete(Needed::Size(11)));
}

#[test]
fn name_errors() {
    // Reserved label type 0b01.
    let src = b"\x40abc";
    assert_eq!(parse_record(&src[..], &src[..]), IResult::Error(ErrorKind::LabelType));
    // A pointer into the message that then points forward again.
    let msg = b"\xc0\x00";
    assert_eq!(parse_record(&msg[..], &msg[..]), IResult::Error(ErrorKind::ForwardPointer));
    // A pointer past the end of the message.
    let msg = b"\xc0\x09";
    assert_eq!(parse_record(&msg[..], &msg[..]), IResult::Error(ErrorKind::Truncated));
    // A label cut off inside the input asks for the rest of the label.
    let src = b"\x03FO";
    assert_eq!(parse_record(&src[..], &src[..]), IResult::Incomplete(Needed::Size(4)));
}

#[test]
fn more_input_keeps_parsed_records() {
    let src = b"\x03FOO\x03BAR\x00\x00\x01\x00\x01\x00\x00\x0e\x10\x00\x04\x7f\x00\x00\x01";
    let mut longer = src.to_vec();
    longer.extend_from_slice(b"\x01\x02\x03");
    let short = parse_record(&src[..], &src[..]);
    let long = parse_record(&longer[..], &longer[..]);
    match (short, long) {
        (Done(r1, v1), Done(r2, v2)) => {
            assert_eq!(v1, v2);
            assert_eq!(r1, &b""[..]);
            assert_eq!(r2, &b"\x01\x02\x03"[..]);
        }
        _ => panic!("both inputs hold a whole record"),
    }
    // A rejection stays a rejection.
    let bad = b"\x00\x00\x01\x00\x01\x00\x00\x0e\x10\x00\x05";
    let mut bad_longer = bad.to_vec();
    bad_longer.extend_from_slice(b"\x00\x00\x00\x00\x00");
    assert_eq!(parse_record(&bad[..], &bad[..]), IResult::Error(ErrorKind::Custom(403)));
    assert_eq!(parse_record(&bad_longer[..], &bad_longer[..]), IResult::Error(ErrorKind::Custom(403)));
}

#[test]
fn records_end_after_rdlength() {
    // Owner name (5 bytes), then type, class, TTL, RDLENGTH = 6, then RDATA.
    let src = b"\x03abc\x00\x00\x05\x00\x01\x00\x00\x00\x01\x00\x06\x01x\x00\x00\x00\x00tail";
    match parse_record(&src[..], &src[..]) {
        Done(rest, ResourceRecord::CNAME { cname, .. }) => {
            assert_eq!(rest, &src[5 + 10 + 6..]);
            assert_eq!(cname, Name::from_labels(vec![b"x".to_vec()]));
        }
        other => panic!("unexpected result {:?}", other),
    }
}

#[test]
fn codes_are_kept() {
    for v in 0..=u16::MAX {
        match type_from(v) {
            Type::A => assert_eq!(v, 1),
            Type::AAAA => assert_eq!(v, 28),
            Type::CNAME => assert_eq!(v, 5),
            Type::SOA => assert_eq!(v, 6),
            Type::Unknown { value } => assert_eq!(value, v),
        }
        let bytes = v.to_be_bytes();
        match parse_class(&bytes[..]) {
            Done(_, Class::Internet) => assert_eq!(v, 1),
            Done(_, Class::Chaos) => assert_eq!(v, 3),
            Done(_, Class::Hesoid) => assert_eq!(v, 4),
            Done(_, Class::Unknown { value }) => assert_eq!(value, v),
            other => panic!("unexpected result {:?}", other),
        }
    }
}

#[test]
fn name_labels_are_kept() {
    let n = foo_bar();
    assert_eq!(n.labels(), &vec![b"FOO".to_vec(), b"BAR".to_vec()]);
}
