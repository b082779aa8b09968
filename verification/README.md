# DNS resource record parsing, verified with Verus

The library parses DNS resource records (RFC 1035, section 4.1.3) from
bytes: the owner name, the type and class codes, the TTL, RDLENGTH and the
type-dependent data of `A`, `AAAA`, `CNAME` and `SOA` records; records of
other types keep their data as bytes.

- `src/result.rs`: the parse outcome `IResult` (`Done`, `Error`,
  `Incomplete`), its mathematical counterpart `SpecResult`, and big-endian
  readers.
- `src/names.rs`: domain names with compression pointers, their model and
  the laws about what a name parse consumes.
- `src/rr.rs`: types, classes, records, the record parsers, and the laws:
  a parsed or rejected record stays so when more bytes follow, a record
  ends exactly where its RDLENGTH says, and no type or class code is lost.
- `app/lib.rs`: the same records with `std::net` addresses and a
  `Display` for classes.

Every parser's contract states its whole result as a function of its input
bytes (`spec_parse_record`, `spec_parse_name`, ...).
