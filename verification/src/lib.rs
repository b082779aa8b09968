//! Parsing of DNS resource records (RFC 1035, section 4.1.3): the owner
//! name, the type and class codes, the TTL and the type-dependent data.

pub mod laws;
pub mod names;
pub mod result;
pub mod rr;

pub use names::{Name, parse_name};
pub use result::{ErrorKind, IResult, Needed};
pub use rr::{Class, ResourceRecord, Type, parse_class, parse_record, parse_type, type_from};
