//! Resource records: type and class codes, character strings, and the
//! type-tagged data payloads.
use vstd::prelude::*;
use vstd::utf8::*;

use crate::error::{Error, Field};
use crate::name;
use crate::name::{lemma_name_at, name_at, serialized};
use crate::wire::{be16, be32, put_range, put_u16, put_u32, read_u16, read_u32, text_of, u16_bytes, u32_bytes};

verus! {

/// The sixteen RR types.
#[derive(Clone, Copy, Debug, PartialEq, Eq, Structural)]
pub enum Type {
    A,
    NS,
    MD,
    MF,
    CNAME,
    SOA,
    MB,
    MG,
    MR,
    NULL,
    WKS,
    PTR,
    HINFO,
    MINFO,
    MX,
    TXT,
}

impl Type {
    /// The wire code of the type.
    pub open spec fn code(self) -> u16 {
        match self {
            Type::A => 1,
            Type::NS => 2,
            Type::MD => 3,
            Type::MF => 4,
            Type::CNAME => 5,
            Type::SOA => 6,
            Type::MB => 7,
            Type::MG => 8,
            Type::MR => 9,
            Type::NULL => 10,
            Type::WKS => 11,
            Type::PTR => 12,
            Type::HINFO => 13,
            Type::MINFO => 14,
            Type::MX => 15,
            Type::TXT => 16,
        }
    }

    /// The type with wire code `v`, if any.
    pub open spec fn from_code(v: u16) -> Option<Type> {
        if v == 1 {
            Some(Type::A)
        } else if v == 2 {
            Some(Type::NS)
        } else if v == 3 {
            Some(Type::MD)
        } else if v == 4 {
            Some(Type::MF)
        } else if v == 5 {
            Some(Type::CNAME)
        } else if v == 6 {
            Some(Type::SOA)
        } else if v == 7 {
            Some(Type::MB)
        } else if v == 8 {
            Some(Type::MG)
        } else if v == 9 {
            Some(Type::MR)
        } else if v == 10 {
            Some(Type::NULL)
        } else if v == 11 {
            Some(Type::WKS)
        } else if v == 12 {
            Some(Type::PTR)
        } else if v == 13 {
            Some(Type::HINFO)
        } else if v == 14 {
            Some(Type::MINFO)
        } else if v == 15 {
            Some(Type::MX)
        } else if v == 16 {
            Some(Type::TXT)
        } else {
            None
        }
    }

    /// The type read from two bytes at `p`.
    pub open spec fn read_at(msg: Seq<u8>, p: int) -> Result<Type, Error> {
        if p + 2 > msg.len() {
            Err(Error::Incomplete(Field::RrType))
        } else {
            match Type::from_code(be16(msg, p)) {
                Some(t) => Ok(t),
                None => Err(Error::InvalidType(be16(msg, p))),
            }
        }
    }

    /// Reads a type code at `*pos`, moving past it on success.
    pub fn parse(msg: &[u8], pos: &mut usize) -> (r: Result<Type, Error>)
        requires
            *old(pos) <= msg@.len(),
        ensures
            r == Type::read_at(msg@, *old(pos) as int),
            r is Ok ==> *final(pos) == *old(pos) + 2,
            r is Err ==> *final(pos) == *old(pos),
    {
        if msg.len() - *pos < 2 {
            return Err(Error::Incomplete(Field::RrType));
        }
        let v = read_u16(msg, *pos);
        let t = if v == 1 {
            Type::A
        } else if v == 2 {
            Type::NS
        } else if v == 3 {
            Type::MD
        } else if v == 4 {
            Type::MF
        } else if v == 5 {
            Type::CNAME
        } else if v == 6 {
            Type::SOA
        } else if v == 7 {
            Type::MB
        } else if v == 8 {
            Type::MG
        } else if v == 9 {
            Type::MR
        } else if v == 10 {
            Type::NULL
        } else if v == 11 {
            Type::WKS
        } else if v == 12 {
            Type::PTR
        } else if v == 13 {
            Type::HINFO
        } else if v == 14 {
            Type::MINFO
        } else if v == 15 {
            Type::MX
        } else if v == 16 {
            Type::TXT
        } else {
            return Err(Error::InvalidType(v));
        };
        *pos = *pos + 2;
        Ok(t)
    }

    /// The wire code of the type.
    pub fn serialize(&self) -> (r: u16)
        ensures
            r == self.code(),
    {
        match self {
            Type::A => 1,
            Type::NS => 2,
            Type::MD => 3,
            Type::MF => 4,
            Type::CNAME => 5,
            Type::SOA => 6,
            Type::MB => 7,
            Type::MG => 8,
            Type::MR => 9,
            Type::NULL => 10,
            Type::WKS => 11,
            Type::PTR => 12,
            Type::HINFO => 13,
            Type::MINFO => 14,
            Type::MX => 15,
            Type::TXT => 16,
        }
    }
}

/// The four RR classes.
#[derive(Clone, Copy, Debug, PartialEq, Eq, Structural)]
pub enum Class {
    IN,
    CS,
    CH,
    HS,
}

impl Class {
    /// The wire code of the class.
    pub open spec fn code(self) -> u16 {
        match self {
            Class::IN => 1,
            Class::CS => 2,
            Class::CH => 3,
            Class::HS => 4,
        }
    }

    /// The class with wire code `v`, if any.
    pub open spec fn from_code(v: u16) -> Option<Class> {
        if v == 1 {
            Some(Class::IN)
        } else if v == 2 {
            Some(Class::CS)
        } else if v == 3 {
            Some(Class::CH)
        } else if v == 4 {
            Some(Class::HS)
        } else {
            None
        }
    }

    /// The class read from two bytes at `p`.
    pub open spec fn read_at(msg: Seq<u8>, p: int) -> Result<Class, Error> {
        if p + 2 > msg.len() {
            Err(Error::Incomplete(Field::RrClass))
        } else {
            match Class::from_code(be16(msg, p)) {
                Some(c) => Ok(c),
                None => Err(Error::InvalidClass(be16(msg, p))),
            }
        }
    }

    /// Reads a class code at `*pos`, moving past it on success.
    pub fn parse(msg: &[u8], pos: &mut usize) -> (r: Result<Class, Error>)
        requires
            *old(pos) <= msg@.len(),
        ensures
            r == Class::read_at(msg@, *old(pos) as int),
            r is Ok ==> *final(pos) == *old(pos) + 2,
            r is Err ==> *final(pos) == *old(pos),
    {
        if msg.len() - *pos < 2 {
            return Err(Error::Incomplete(Field::RrClass));
        }
        let v = read_u16(msg, *pos);
        let c = if v == 1 {
            Class::IN
        } else if v == 2 {
            Class::CS
        } else if v == 3 {
            Class::CH
        } else if v == 4 {
            Class::HS
        } else {
            return Err(Error::InvalidClass(v));
        };
        *pos = *pos + 2;
        Ok(c)
    }

    /// The wire code of the class.
    pub fn serialize(&self) -> (r: u16)
        ensures
            r == self.code(),
    {
        match self {
            Class::IN => 1,
            Class::CS => 2,
            Class::CH => 3,
            Class::HS => 4,
        }
    }
}

/// An IPv4 address as its four octets, most significant first.
#[derive(Clone, Copy, Debug, PartialEq, Eq, Structural)]
pub struct Ipv4Addr {
    pub a: u8,
    pub b: u8,
    pub c: u8,
    pub d: u8,
}

impl Ipv4Addr {
    /// The address `a.b.c.d`.
    pub fn new(a: u8, b: u8, c: u8, d: u8) -> (r: Ipv4Addr)
        ensures
            r == (Ipv4Addr { a, b, c, d }),
    {
        Ipv4Addr { a, b, c, d }
    }
}

/// The four bytes of an address.
pub open spec fn addr_bytes(x: Ipv4Addr) -> Seq<u8> {
    seq![x.a, x.b, x.c, x.d]
}

/// The address held by the four bytes at `p`.
pub open spec fn addr_at(msg: Seq<u8>, p: int) -> Ipv4Addr {
    Ipv4Addr { a: msg[p], b: msg[p + 1], c: msg[p + 2], d: msg[p + 3] }
}

/// Length-prefixed text of at most 255 bytes, used inside RR data.
pub struct CharacterString;

/// The longest character string, in bytes.
pub const MAX_CHARS: usize = 255;

/// The wire form of the text `s`: its length byte, then its UTF-8 bytes.
pub open spec fn string_bytes(s: Seq<char>) -> Result<Seq<u8>, Error> {
    let b = encode_utf8(s);
    if b.len() > MAX_CHARS {
        Err(Error::StringTooLong)
    } else {
        Ok(seq![b.len() as u8] + b)
    }
}

/// The character string at `p` with bytes readable below `lim`, and the
/// offset past it.
pub open spec fn string_at(msg: Seq<u8>, p: int, lim: int) -> Result<(Seq<char>, int), Error> {
    if p < 0 || p >= lim || lim > msg.len() {
        Err(Error::Incomplete(Field::CharacterStringLength))
    } else if p + 1 + msg[p] > lim {
        Err(Error::Incomplete(Field::CharacterString))
    } else if !valid_utf8(msg.subrange(p + 1, p + 1 + msg[p])) {
        Err(Error::StringNotUtf8)
    } else {
        Ok((decode_utf8(msg.subrange(p + 1, p + 1 + msg[p])), p + 1 + msg[p]))
    }
}

impl CharacterString {
    /// Reads the character string at `*pos` within `end`, moving past it on
    /// success.
    pub fn parse(msg: &[u8], pos: &mut usize, end: usize) -> (r: Result<String, Error>)
        requires
            *old(pos) <= end <= msg@.len(),
        ensures
            r is Ok <==> string_at(msg@, *old(pos) as int, end as int) is Ok,
            r is Ok ==> r->Ok_0@ == string_at(msg@, *old(pos) as int, end as int)->Ok_0.0,
            r is Ok ==> *final(pos) == string_at(msg@, *old(pos) as int, end as int)->Ok_0.1,
            r is Ok ==> *old(pos) < *final(pos) <= end,
            r is Err ==> r->Err_0 == string_at(msg@, *old(pos) as int, end as int)->Err_0,
            r is Err ==> *final(pos) == *old(pos),
    {
        let p = *pos;
        if p >= end {
            return Err(Error::Incomplete(Field::CharacterStringLength));
        }
        let len = msg[p] as usize;
        if end - (p + 1) < len {
            return Err(Error::Incomplete(Field::CharacterString));
        }
        let mut bytes: Vec<u8> = Vec::new();
        put_range(&mut bytes, msg, p + 1, p + 1 + len);
        match text_of(bytes.as_slice()) {
            Some(s) => {
                proof {
                    encode_utf8_decode_utf8(s@);
                }
                *pos = p + 1 + len;
                Ok(s.to_owned())
            },
            None => Err(Error::StringNotUtf8),
        }
    }

    /// Writes `s` as a length byte followed by its bytes.
    pub fn serialize(s: &str) -> (r: Result<Vec<u8>, Error>)
        ensures
            r is Ok <==> string_bytes(s@) is Ok,
            r is Ok ==> r->Ok_0@ == string_bytes(s@)->Ok_0,
            r is Err ==> r->Err_0 == string_bytes(s@)->Err_0,
    {
        let b = s.as_bytes();
        if b.len() > MAX_CHARS {
            return Err(Error::StringTooLong);
        }
        let mut out: Vec<u8> = Vec::new();
        out.push(b.len() as u8);
        put_range(&mut out, b, 0, b.len());
        assert(b@.subrange(0, b@.len() as int) =~= b@);
        assert(out@ =~= seq![b@.len() as u8] + b@);
        Ok(out)
    }
}

/// What an RR data payload holds: text as characters, opaque bytes as bytes.
pub enum DataV {
    A(Ipv4Addr),
    NS(Seq<char>),
    MD(Seq<char>),
    MF(Seq<char>),
    CNAME(Seq<char>),
    SOA {
        mname: Seq<char>,
        rname: Seq<char>,
        serial: u32,
        refresh: u32,
        retry: u32,
        expire: u32,
        minimum: i32,
    },
    MB(Seq<char>),
    MG(Seq<char>),
    MR(Seq<char>),
    NULL(Seq<u8>),
    WKS { address: Ipv4Addr, protocol: u8, bit_map: Seq<u8> },
    PTR(Seq<char>),
    HINFO { cpu: Seq<char>, os: Seq<char> },
    MINFO { rmailbx: Seq<char>, emailbx: Seq<char> },
    MX { preference: i16, exchange: Seq<char> },
    TXT(Seq<Seq<char>>),
}

/// An RR data payload, one variant per RR type.
#[derive(Clone, Debug, PartialEq, Eq)]
pub enum Data {
    A(Ipv4Addr),
    NS(String),
    MD(String),
    MF(String),
    CNAME(String),
    SOA {
        mname: String,
        rname: String,
        serial: u32,
        refresh: u32,
        retry: u32,
        expire: u32,
        minimum: i32,
    },
    MB(String),
    MG(String),
    MR(String),
    NULL(Vec<u8>),
    WKS { address: Ipv4Addr, protocol: u8, bit_map: Vec<u8> },
    PTR(String),
    HINFO { cpu: String, os: String },
    MINFO { rmailbx: String, emailbx: String },
    MX { preference: i16, exchange: String },
    TXT(Vec<String>),
}

impl View for Data {
    type V = DataV;

    open spec fn view(&self) -> DataV {
        match self {
            Data::A(x) => DataV::A(*x),
            Data::NS(n) => DataV::NS(n@),
            Data::MD(n) => DataV::MD(n@),
            Data::MF(n) => DataV::MF(n@),
            Data::CNAME(n) => DataV::CNAME(n@),
            Data::SOA { mname, rname, serial, refresh, retry, expire, minimum } => DataV::SOA {
                mname: mname@,
                rname: rname@,
                serial: *serial,
                refresh: *refresh,
                retry: *retry,
                expire: *expire,
                minimum: *minimum,
            },
            Data::MB(n) => DataV::MB(n@),
            Data::MG(n) => DataV::MG(n@),
            Data::MR(n) => DataV::MR(n@),
            Data::NULL(b) => DataV::NULL(b@),
            Data::WKS { address, protocol, bit_map } => DataV::WKS {
                address: *address,
                protocol: *protocol,
                bit_map: bit_map@,
            },
            Data::PTR(n) => DataV::PTR(n@),
            Data::HINFO { cpu, os } => DataV::HINFO { cpu: cpu@, os: os@ },
            Data::MINFO { rmailbx, emailbx } => DataV::MINFO {
                rmailbx: rmailbx@,
                emailbx: emailbx@,
            },
            Data::MX { preference, exchange } => DataV::MX {
                preference: *preference,
                exchange: exchange@,
            },
            Data::TXT(l) => DataV::TXT(l@.map_values(|s: String| s@)),
        }
    }
}

/// The RR type that a payload belongs to.
pub open spec fn data_type(d: DataV) -> Type {
    match d {
        DataV::A(_) => Type::A,
        DataV::NS(_) => Type::NS,
        DataV::MD(_) => Type::MD,
        DataV::MF(_) => Type::MF,
        DataV::CNAME(_) => Type::CNAME,
        DataV::SOA { .. } => Type::SOA,
        DataV::MB(_) => Type::MB,
        DataV::MG(_) => Type::MG,
        DataV::MR(_) => Type::MR,
        DataV::NULL(_) => Type::NULL,
        DataV::WKS { .. } => Type::WKS,
        DataV::PTR(_) => Type::PTR,
        DataV::HINFO { .. } => Type::HINFO,
        DataV::MINFO { .. } => Type::MINFO,
        DataV::MX { .. } => Type::MX,
        DataV::TXT(_) => Type::TXT,
    }
}

/// `a` followed by `b`, or the first of their errors.
pub open spec fn join(a: Result<Seq<u8>, Error>, b: Result<Seq<u8>, Error>) -> Result<
    Seq<u8>,
    Error,
> {
    match a {
        Err(e) => Err(e),
        Ok(x) => match b {
            Err(e) => Err(e),
            Ok(y) => Ok(x + y),
        },
    }
}

/// The character strings of `l`, one after another.
pub open spec fn txt_bytes(l: Seq<Seq<char>>) -> Result<Seq<u8>, Error>
    decreases l.len(),
{
    if l.len() == 0 {
        Ok(seq![])
    } else {
        join(txt_bytes(l.drop_last()), string_bytes(l.last()))
    }
}

/// The wire form of a payload; names are written without compression.
pub open spec fn data_bytes(d: DataV) -> Result<Seq<u8>, Error> {
    match d {
        DataV::A(x) => Ok(addr_bytes(x)),
        DataV::NS(n) => serialized(n, None),
        DataV::MD(n) => serialized(n, None),
        DataV::MF(n) => serialized(n, None),
        DataV::CNAME(n) => serialized(n, None),
        DataV::SOA { mname, rname, serial, refresh, retry, expire, minimum } => join(
            join(serialized(mname, None), serialized(rname, None)),
            Ok(u32_bytes(serial) + u32_bytes(refresh) + u32_bytes(retry) + u32_bytes(expire)
                + u32_bytes(minimum as u32)),
        ),
        DataV::MB(n) => serialized(n, None),
        DataV::MG(n) => serialized(n, None),
        DataV::MR(n) => serialized(n, None),
        DataV::NULL(b) => Ok(b),
        DataV::WKS { address, protocol, bit_map } => Ok(
            addr_bytes(address) + seq![protocol] + bit_map,
        ),
        DataV::PTR(n) => serialized(n, None),
        DataV::HINFO { cpu, os } => join(string_bytes(cpu), string_bytes(os)),
        DataV::MINFO { rmailbx, emailbx } => join(
            serialized(rmailbx, None),
            serialized(emailbx, None),
        ),
        DataV::MX { preference, exchange } => join(
            Ok(u16_bytes(preference as u16)),
            serialized(exchange, None),
        ),
        DataV::TXT(l) => txt_bytes(l),
    }
}

/// The greedy run of character strings from `p` below `lim`, and where it stops.
pub open spec fn txt_from(msg: Seq<u8>, p: int, lim: int) -> (Seq<Seq<char>>, int)
    decreases lim - p,
{
    match string_at(msg, p, lim) {
        Ok((s, q)) => if p < q <= lim {
            (seq![s] + txt_from(msg, q, lim).0, txt_from(msg, q, lim).1)
        } else {
            (seq![], p)
        },
        Err(_) => (seq![], p),
    }
}

/// The `u32` at `p` when it lies below `lim`, and the offset past it.
pub open spec fn u32_at(msg: Seq<u8>, p: int, lim: int, f: Field) -> Result<(u32, int), Error> {
    if p + 4 > lim {
        Err(Error::Incomplete(f))
    } else {
        Ok((be32(msg, p), p + 4))
    }
}

/// The payload of type `t` that starts at `p`, whose bytes lie below `end`,
/// and where its reading stops.
#[verifier::opaque]
pub open spec fn payload(msg: Seq<u8>, p: int, end: int, t: Type) -> Result<(DataV, int), Error> {
    match t {
        Type::A => if end - p != 4 {
            Err(Error::AddressLength)
        } else {
            Ok((DataV::A(addr_at(msg, p)), end))
        },
        Type::NS => match name_at(msg, p, end) {
            Ok((n, q)) => Ok((DataV::NS(n), q)),
            Err(e) => Err(e),
        },
        Type::MD => match name_at(msg, p, end) {
            Ok((n, q)) => Ok((DataV::MD(n), q)),
            Err(e) => Err(e),
        },
        Type::MF => match name_at(msg, p, end) {
            Ok((n, q)) => Ok((DataV::MF(n), q)),
            Err(e) => Err(e),
        },
        Type::CNAME => match name_at(msg, p, end) {
            Ok((n, q)) => Ok((DataV::CNAME(n), q)),
            Err(e) => Err(e),
        },
        Type::SOA => match name_at(msg, p, end) {
            Err(e) => Err(e),
            Ok((m, q1)) => match name_at(msg, q1, end) {
                Err(e) => Err(e),
                Ok((r, q)) => if q + 4 > end {
                    Err(Error::Incomplete(Field::SoaSerial))
                } else if q + 8 > end {
                    Err(Error::Incomplete(Field::SoaRefresh))
                } else if q + 12 > end {
                    Err(Error::Incomplete(Field::SoaRetry))
                } else if q + 16 > end {
                    Err(Error::Incomplete(Field::SoaExpire))
                } else if q + 20 > end {
                    Err(Error::Incomplete(Field::SoaMinimum))
                } else {
                    Ok(
                        (
                            DataV::SOA {
                                mname: m,
                                rname: r,
                                serial: be32(msg, q),
                                refresh: be32(msg, q + 4),
                                retry: be32(msg, q + 8),
                                expire: be32(msg, q + 12),
                                minimum: be32(msg, q + 16) as i32,
                            },
                            q + 20,
                        ),
                    )
                },
            },
        },
        Type::MB => match name_at(msg, p, end) {
            Ok((n, q)) => Ok((DataV::MB(n), q)),
            Err(e) => Err(e),
        },
        Type::MG => match name_at(msg, p, end) {
            Ok((n, q)) => Ok((DataV::MG(n), q)),
            Err(e) => Err(e),
        },
        Type::MR => match name_at(msg, p, end) {
            Ok((n, q)) => Ok((DataV::MR(n), q)),
            Err(e) => Err(e),
        },
        Type::NULL => Ok((DataV::NULL(msg.subrange(p, end)), end)),
        Type::WKS => if p + 4 > end {
            Err(Error::Incomplete(Field::WksAddress))
        } else if p + 5 > end {
            Err(Error::Incomplete(Field::WksProtocol))
        } else {
            Ok(
                (
                    DataV::WKS {
                        address: addr_at(msg, p),
                        protocol: msg[p + 4],
                        bit_map: msg.subrange(p + 5, end),
                    },
                    end,
                ),
            )
        },
        Type::PTR => match name_at(msg, p, end) {
            Ok((n, q)) => Ok((DataV::PTR(n), q)),
            Err(e) => Err(e),
        },
        Type::HINFO => match string_at(msg, p, end) {
            Err(e) => Err(e),
            Ok((c, q1)) => match string_at(msg, q1, end) {
                Err(e) => Err(e),
                Ok((o, q)) => Ok((DataV::HINFO { cpu: c, os: o }, q)),
            },
        },
        Type::MINFO => match name_at(msg, p, end) {
            Err(e) => Err(e),
            Ok((r, q1)) => match name_at(msg, q1, end) {
                Err(e) => Err(e),
                Ok((m, q)) => Ok((DataV::MINFO { rmailbx: r, emailbx: m }, q)),
            },
        },
        Type::MX => if p + 2 > end {
            Err(Error::Incomplete(Field::MxPreference))
        } else {
            match name_at(msg, p + 2, end) {
                Err(e) => Err(e),
                Ok((n, q)) => Ok((DataV::MX { preference: be16(msg, p) as i16, exchange: n }, q)),
            }
        },
        Type::TXT => Ok((DataV::TXT(txt_from(msg, p, end).0), txt_from(msg, p, end).1)),
    }
}

/// The data length at `p`, then the payload of type `t` that fills exactly
/// that many bytes; the result holds the offset past the payload.
pub open spec fn data_at(msg: Seq<u8>, p: int, t: Type) -> Result<(DataV, int), Error> {
    if p < 0 || p + 2 > msg.len() {
        Err(Error::Incomplete(Field::DataLength))
    } else if p + 2 + be16(msg, p) > msg.len() {
        Err(Error::Incomplete(Field::Data))
    } else {
        match payload(msg, p + 2, p + 2 + be16(msg, p), t) {
            Err(e) => Err(e),
            Ok((d, q)) => if q != p + 2 + be16(msg, p) {
                Err(Error::DataLengthMismatch)
            } else {
                Ok((d, q))
            },
        }
    }
}

proof fn lemma_txt_err_extends(l: Seq<Seq<char>>, i: int)
    requires
        0 <= i <= l.len(),
        txt_bytes(l.subrange(0, i)) is Err,
    ensures
        txt_bytes(l) == txt_bytes(l.subrange(0, i)),
    decreases l.len() - i,
{
    if i < l.len() {
        assert(l.subrange(0, i + 1).drop_last() =~= l.subrange(0, i));
        lemma_txt_err_extends(l, i + 1);
    } else {
        assert(l.subrange(0, i) =~= l);
    }
}

/// Appends `n` written as an uncompressed name.
fn put_name(out: &mut Vec<u8>, n: &String) -> (r: Result<(), Error>)
    ensures
        r is Ok <==> serialized(n@, None) is Ok,
        r is Ok ==> final(out)@ == old(out)@ + serialized(n@, None)->Ok_0,
        r is Err ==> r->Err_0 == serialized(n@, None)->Err_0,
{
    match name::serialize(n.as_str(), None) {
        Ok(w) => {
            put_range(out, w.as_slice(), 0, w.len());
            assert(w@.subrange(0, w@.len() as int) =~= w@);
            Ok(())
        },
        Err(e) => Err(e),
    }
}

/// Appends `s` written as a character string.
fn put_string(out: &mut Vec<u8>, s: &String) -> (r: Result<(), Error>)
    ensures
        r is Ok <==> string_bytes(s@) is Ok,
        r is Ok ==> final(out)@ == old(out)@ + string_bytes(s@)->Ok_0,
        r is Err ==> r->Err_0 == string_bytes(s@)->Err_0,
{
    match CharacterString::serialize(s.as_str()) {
        Ok(w) => {
            put_range(out, w.as_slice(), 0, w.len());
            assert(w@.subrange(0, w@.len() as int) =~= w@);
            Ok(())
        },
        Err(e) => Err(e),
    }
}

impl Data {
    /// Reads the data length at `*pos` and then the payload of type `t`,
    /// which must fill exactly that many bytes. Names in the payload may point
    /// anywhere earlier in `msg`. On success `*pos` moves past the payload.
    pub fn parse(msg: &[u8], pos: &mut usize, t: Type) -> (r: Result<Data, Error>)
        requires
            *old(pos) <= msg@.len(),
        ensures
            r is Ok <==> data_at(msg@, *old(pos) as int, t) is Ok,
            r is Ok ==> r->Ok_0@ == data_at(msg@, *old(pos) as int, t)->Ok_0.0,
            r is Ok ==> *final(pos) == data_at(msg@, *old(pos) as int, t)->Ok_0.1,
            r is Err ==> r->Err_0 == data_at(msg@, *old(pos) as int, t)->Err_0,
            r is Err ==> *final(pos) == *old(pos),
    {
        let p = *pos;
        if msg.len() - p < 2 {
            return Err(Error::Incomplete(Field::DataLength));
        }
        let len = read_u16(msg, p) as usize;
        let start = p + 2;
        if msg.len() - start < len {
            return Err(Error::Incomplete(Field::Data));
        }
        let end = start + len;
        let mut q = start;
        let d = match Data::parse_payload(msg, &mut q, end, t) {
            Ok(d) => d,
            Err(e) => {
                return Err(e);
            },
        };
        if q != end {
            return Err(Error::DataLengthMismatch);
        }
        *pos = end;
        Ok(d)
    }

    fn parse_payload(msg: &[u8], q: &mut usize, end: usize, t: Type) -> (r: Result<Data, Error>)
        requires
            *old(q) <= end <= msg@.len(),
        ensures
            r is Ok <==> payload(msg@, *old(q) as int, end as int, t) is Ok,
            r is Ok ==> r->Ok_0@ == payload(msg@, *old(q) as int, end as int, t)->Ok_0.0,
            r is Ok ==> *final(q) == payload(msg@, *old(q) as int, end as int, t)->Ok_0.1,
            r is Err ==> r->Err_0 == payload(msg@, *old(q) as int, end as int, t)->Err_0,
    {
        reveal(payload);
        let p = *q;
        match t {
            Type::A => {
                if end - p != 4 {
                    return Err(Error::AddressLength);
                }
                *q = end;
                Ok(Data::A(Ipv4Addr::new(msg[p], msg[p + 1], msg[p + 2], msg[p + 3])))
            },
            Type::NS => match name::parse(msg, q, end) {
                Ok(n) => Ok(Data::NS(n)),
                Err(e) => Err(e),
            },
            Type::MD => match name::parse(msg, q, end) {
                Ok(n) => Ok(Data::MD(n)),
                Err(e) => Err(e),
            },
            Type::MF => match name::parse(msg, q, end) {
                Ok(n) => Ok(Data::MF(n)),
                Err(e) => Err(e),
            },
            Type::CNAME => match name::parse(msg, q, end) {
                Ok(n) => Ok(Data::CNAME(n)),
                Err(e) => Err(e),
            },
            Type::SOA => {
                let mname = match name::parse(msg, q, end) {
                    Ok(n) => n,
                    Err(e) => {
                        return Err(e);
                    },
                };
                let rname = match name::parse(msg, q, end) {
                    Ok(n) => n,
                    Err(e) => {
                        return Err(e);
                    },
                };
                let f = *q;
                if end - f < 4 {
                    return Err(Error::Incomplete(Field::SoaSerial));
                }
                if end - f < 8 {
                    return Err(Error::Incomplete(Field::SoaRefresh));
                }
                if end - f < 12 {
                    return Err(Error::Incomplete(Field::SoaRetry));
                }
                if end - f < 16 {
                    return Err(Error::Incomplete(Field::SoaExpire));
                }
                if end - f < 20 {
                    return Err(Error::Incomplete(Field::SoaMinimum));
                }
                let serial = read_u32(msg, f);
                let refresh = read_u32(msg, f + 4);
                let retry = read_u32(msg, f + 8);
                let expire = read_u32(msg, f + 12);
                let minimum = #[verifier::truncate] (read_u32(msg, f + 16) as i32);
                *q = f + 20;
                Ok(Data::SOA { mname, rname, serial, refresh, retry, expire, minimum })
            },
            Type::MB => match name::parse(msg, q, end) {
                Ok(n) => Ok(Data::MB(n)),
                Err(e) => Err(e),
            },
            Type::MG => match name::parse(msg, q, end) {
                Ok(n) => Ok(Data::MG(n)),
                Err(e) => Err(e),
            },
            Type::MR => match name::parse(msg, q, end) {
                Ok(n) => Ok(Data::MR(n)),
                Err(e) => Err(e),
            },
            Type::NULL => {
                let mut b: Vec<u8> = Vec::new();
                put_range(&mut b, msg, p, end);
                *q = end;
                Ok(Data::NULL(b))
            },
            Type::WKS => {
                if end - p < 4 {
                    return Err(Error::Incomplete(Field::WksAddress));
                }
                if end - p < 5 {
                    return Err(Error::Incomplete(Field::WksProtocol));
                }
                let address = Ipv4Addr::new(msg[p], msg[p + 1], msg[p + 2], msg[p + 3]);
                let protocol = msg[p + 4];
                let mut bit_map: Vec<u8> = Vec::new();
                put_range(&mut bit_map, msg, p + 5, end);
                *q = end;
                Ok(Data::WKS { address, protocol, bit_map })
            },
            Type::PTR => match name::parse(msg, q, end) {
                Ok(n) => Ok(Data::PTR(n)),
                Err(e) => Err(e),
            },
            Type::HINFO => {
                let cpu = match CharacterString::parse(msg, q, end) {
                    Ok(s) => s,
                    Err(e) => {
                        return Err(e);
                    },
                };
                let os = match CharacterString::parse(msg, q, end) {
                    Ok(s) => s,
                    Err(e) => {
                        return Err(e);
                    },
                };
                Ok(Data::HINFO { cpu, os })
            },
            Type::MINFO => {
                let rmailbx = match name::parse(msg, q, end) {
                    Ok(n) => n,
                    Err(e) => {
                        return Err(e);
                    },
                };
                let emailbx = match name::parse(msg, q, end) {
                    Ok(n) => n,
                    Err(e) => {
                        return Err(e);
                    },
                };
                Ok(Data::MINFO { rmailbx, emailbx })
            },
            Type::MX => {
                if end - p < 2 {
                    return Err(Error::Incomplete(Field::MxPreference));
                }
                let preference = #[verifier::truncate] (read_u16(msg, p) as i16);
                *q = p + 2;
                match name::parse(msg, q, end) {
                    Ok(exchange) => Ok(Data::MX { preference, exchange }),
                    Err(e) => Err(e),
                }
            },
            Type::TXT => {
                let mut list: Vec<String> = Vec::new();
                loop
                    invariant
                        p == *old(q),
                        p <= *q <= end <= msg@.len(),
                        txt_from(msg@, p as int, end as int) == (
                            list@.map_values(|s: String| s@) + txt_from(
                                msg@,
                                *q as int,
                                end as int,
                            ).0,
                            txt_from(msg@, *q as int, end as int).1,
                        ),
                    ensures
                        p <= *q <= end,
                        txt_from(msg@, p as int, end as int) == (
                            list@.map_values(|s: String| s@) + txt_from(
                                msg@,
                                *q as int,
                                end as int,
                            ).0,
                            txt_from(msg@, *q as int, end as int).1,
                        ),
                        txt_from(msg@, *q as int, end as int) == (
                            Seq::<Seq<char>>::empty(),
                            *q as int,
                        ),
                    decreases end - *q,
                {
                    let ghost before = *q;
                    let ghost lv = list@.map_values(|s: String| s@);
                    match CharacterString::parse(msg, q, end) {
                        Ok(s) => {
                            let ghost sv = s@;
                            list.push(s);
                            assert(list@.map_values(|s: String| s@) =~= lv.push(sv));
                            assert(lv + txt_from(msg@, before as int, end as int).0 =~= lv.push(sv)
                                + txt_from(msg@, *q as int, end as int).0);
                        },
                        Err(_) => {
                            break ;
                        },
                    }
                }
                assert(list@.map_values(|s: String| s@) + Seq::<Seq<char>>::empty()
                    =~= list@.map_values(|s: String| s@));
                Ok(Data::TXT(list))
            },
        }
    }
}

/// Appends the character strings of `l`, one after another.
fn put_txt(out: &mut Vec<u8>, l: &Vec<String>) -> (r: Result<(), Error>)
    ensures
        r is Ok <==> txt_bytes(l@.map_values(|s: String| s@)) is Ok,
        r is Ok ==> final(out)@ == old(out)@ + txt_bytes(l@.map_values(|s: String| s@))->Ok_0,
        r is Err ==> r->Err_0 == txt_bytes(l@.map_values(|s: String| s@))->Err_0,
{
    let ghost lv = l@.map_values(|s: String| s@);
    let ghost start = out@;
    let mut i: usize = 0;
    while i < l.len()
        invariant
            i <= l@.len(),
            lv == l@.map_values(|s: String| s@),
            start == old(out)@,
            txt_bytes(lv.subrange(0, i as int)) is Ok,
            out@ == start + txt_bytes(lv.subrange(0, i as int))->Ok_0,
        decreases l@.len() - i,
    {
        assert(lv.subrange(0, i + 1).drop_last() =~= lv.subrange(0, i as int));
        assert(lv.subrange(0, i + 1).last() == l@[i as int]@);
        let ghost before = out@;
        if let Err(e) = put_string(out, &l[i]) {
            proof {
                lemma_txt_err_extends(lv, i + 1);
            }
            return Err(e);
        }
        assert(out@ =~= start + txt_bytes(lv.subrange(0, i + 1))->Ok_0);
        i = i + 1;
    }
    assert(lv.subrange(0, i as int) =~= lv);
    Ok(())
}

/// The payload of an SOA record with the given fields.
fn soa_bytes(
    mname: &String,
    rname: &String,
    serial: u32,
    refresh: u32,
    retry: u32,
    expire: u32,
    minimum: i32,
) -> (r: Result<Vec<u8>, Error>)
    ensures
        ({
            let d = DataV::SOA {
                mname: mname@,
                rname: rname@,
                serial,
                refresh,
                retry,
                expire,
                minimum,
            };
            &&& r is Ok <==> data_bytes(d) is Ok
            &&& r is Ok ==> r->Ok_0@ == data_bytes(d)->Ok_0
            &&& r is Err ==> r->Err_0 == data_bytes(d)->Err_0
        }),
{
    let mut out: Vec<u8> = Vec::new();
    if let Err(e) = put_name(&mut out, mname) {
        return Err(e);
    }
    if let Err(e) = put_name(&mut out, rname) {
        return Err(e);
    }
    put_u32(&mut out, serial);
    put_u32(&mut out, refresh);
    put_u32(&mut out, retry);
    put_u32(&mut out, expire);
    put_u32(&mut out, #[verifier::truncate] (minimum as u32));
    assert(out@ =~= serialized(mname@, None)->Ok_0 + serialized(rname@, None)->Ok_0 + (
    u32_bytes(serial) + u32_bytes(refresh) + u32_bytes(retry) + u32_bytes(expire) + u32_bytes(
        minimum as u32,
    )));
    Ok(out)
}

/// `a` then `b`, both as names or both as character strings.
fn pair_bytes(a: &String, b: &String, names: bool) -> (r: Result<Vec<u8>, Error>)
    ensures
        ({
            let x = if names {
                serialized(a@, None)
            } else {
                string_bytes(a@)
            };
            let y = if names {
                serialized(b@, None)
            } else {
                string_bytes(b@)
            };
            &&& r is Ok <==> join(x, y) is Ok
            &&& r is Ok ==> r->Ok_0@ == join(x, y)->Ok_0
            &&& r is Err ==> r->Err_0 == join(x, y)->Err_0
        }),
{
    let mut out: Vec<u8> = Vec::new();
    let first = if names {
        put_name(&mut out, a)
    } else {
        put_string(&mut out, a)
    };
    if let Err(e) = first {
        return Err(e);
    }
    let second = if names {
        put_name(&mut out, b)
    } else {
        put_string(&mut out, b)
    };
    if let Err(e) = second {
        return Err(e);
    }
    assert(out@ =~= Seq::<u8>::empty() + out@);
    Ok(out)
}

impl Data {
    /// Writes the payload; names are written without compression.
    pub fn serialize(&self) -> (r: Result<Vec<u8>, Error>)
        ensures
            r is Ok <==> data_bytes(self@) is Ok,
            r is Ok ==> r->Ok_0@ == data_bytes(self@)->Ok_0,
            r is Err ==> r->Err_0 == data_bytes(self@)->Err_0,
    {
        match self {
            Data::A(x) => {
                let mut out: Vec<u8> = Vec::new();
                out.push(x.a);
                out.push(x.b);
                out.push(x.c);
                out.push(x.d);
                assert(out@ =~= addr_bytes(*x));
                Ok(out)
            },
            Data::NS(n) => name::serialize(n.as_str(), None),
            Data::MD(n) => name::serialize(n.as_str(), None),
            Data::MF(n) => name::serialize(n.as_str(), None),
            Data::CNAME(n) => name::serialize(n.as_str(), None),
            Data::SOA { mname, rname, serial, refresh, retry, expire, minimum } => soa_bytes(
                mname,
                rname,
                *serial,
                *refresh,
                *retry,
                *expire,
                *minimum,
            ),
            Data::MB(n) => name::serialize(n.as_str(), None),
            Data::MG(n) => name::serialize(n.as_str(), None),
            Data::MR(n) => name::serialize(n.as_str(), None),
            Data::NULL(b) => {
                let mut out: Vec<u8> = Vec::new();
                put_range(&mut out, b.as_slice(), 0, b.len());
                assert(out@ =~= b@);
                Ok(out)
            },
            Data::WKS { address, protocol, bit_map } => {
                let mut out: Vec<u8> = Vec::new();
                out.push(address.a);
                out.push(address.b);
                out.push(address.c);
                out.push(address.d);
                out.push(*protocol);
                put_range(&mut out, bit_map.as_slice(), 0, bit_map.len());
                assert(out@ =~= addr_bytes(*address) + seq![*protocol] + bit_map@);
                Ok(out)
            },
            Data::PTR(n) => name::serialize(n.as_str(), None),
            Data::HINFO { cpu, os } => pair_bytes(cpu, os, false),
            Data::MINFO { rmailbx, emailbx } => pair_bytes(rmailbx, emailbx, true),
            Data::MX { preference, exchange } => {
                let mut out: Vec<u8> = Vec::new();
                put_u16(&mut out, #[verifier::truncate] (*preference as u16));
                if let Err(e) = put_name(&mut out, exchange) {
                    return Err(e);
                }
                Ok(out)
            },
            Data::TXT(l) => {
                let mut out: Vec<u8> = Vec::new();
                if let Err(e) = put_txt(&mut out, l) {
                    return Err(e);
                }
                assert(out@ =~= txt_bytes(l@.map_values(|s: String| s@))->Ok_0);
                Ok(out)
            },
        }
    }
}

proof fn lemma_data_type(msg: Seq<u8>, p: int, t: Type)
    ensures
        data_at(msg, p, t) is Ok ==> data_type(data_at(msg, p, t)->Ok_0.0) == t,
{
    reveal(payload);
}

/// What a resource record holds.
pub struct RrV {
    pub name: Seq<char>,
    pub rtype: Type,
    pub class: Class,
    pub ttl: i32,
    pub data: DataV,
}

/// A resource record. Its data always belongs to its type.
#[derive(Clone, Debug, PartialEq, Eq)]
pub struct ResourceRecord {
    name: String,
    rtype: Type,
    class: Class,
    ttl: i32,
    data: Data,
}

impl View for ResourceRecord {
    type V = RrV;

    closed spec fn view(&self) -> RrV {
        RrV {
            name: self.name@,
            rtype: self.rtype,
            class: self.class,
            ttl: self.ttl,
            data: self.data@,
        }
    }
}

/// The record read at `p`: owner name, type, class, TTL, then the data.
pub open spec fn rr_at(msg: Seq<u8>, p: int) -> Result<(RrV, int), Error> {
    match name_at(msg, p, msg.len() as int) {
        Err(e) => Err(e),
        Ok((n, q)) => match Type::read_at(msg, q) {
            Err(e) => Err(e),
            Ok(t) => match Class::read_at(msg, q + 2) {
                Err(e) => Err(e),
                Ok(c) => if q + 8 > msg.len() {
                    Err(Error::Incomplete(Field::Ttl))
                } else {
                    match data_at(msg, q + 8, t) {
                        Err(e) => Err(e),
                        Ok((d, e)) => Ok(
                            (RrV { name: n, rtype: t, class: c, ttl: be32(msg, q + 4) as i32, data: d }, e),
                        ),
                    }
                },
            },
        },
    }
}

/// The wire form of a record: its name uncompressed, type, class, TTL, data
/// length, then the data.
pub open spec fn rr_bytes(r: RrV) -> Result<Seq<u8>, Error> {
    match serialized(r.name, None) {
        Err(e) => Err(e),
        Ok(nb) => match data_bytes(r.data) {
            Err(e) => Err(e),
            Ok(db) => if db.len() > 0xffff {
                Err(Error::DataTooLong)
            } else {
                Ok(
                    nb + u16_bytes(r.rtype.code()) + u16_bytes(r.class.code()) + u32_bytes(
                        r.ttl as u32,
                    ) + u16_bytes(db.len() as u16) + db,
                )
            },
        },
    }
}

impl ResourceRecord {
    /// The data belongs to the type.
    pub open spec fn wf(&self) -> bool {
        data_type(self@.data) == self@.rtype
    }

    /// A record of the given fields; refused when the data does not belong
    /// to the type.
    pub fn new(name: String, rtype: Type, class: Class, ttl: i32, data: Data) -> (r: Result<
        Self,
        Error,
    >)
        ensures
            r is Ok <==> data_type(data@) == rtype,
            r is Ok ==> r->Ok_0@ == (RrV { name: name@, rtype, class, ttl, data: data@ }),
            r is Ok ==> r->Ok_0.wf(),
            r is Err ==> r->Err_0 == Error::TypeMismatch,
    {
        let matches = match rtype {
            Type::A => matches!(data, Data::A(_)),
            Type::NS => matches!(data, Data::NS(_)),
            Type::MD => matches!(data, Data::MD(_)),
            Type::MF => matches!(data, Data::MF(_)),
            Type::CNAME => matches!(data, Data::CNAME(_)),
            Type::SOA => matches!(data, Data::SOA { .. }),
            Type::MB => matches!(data, Data::MB(_)),
            Type::MG => matches!(data, Data::MG(_)),
            Type::MR => matches!(data, Data::MR(_)),
            Type::NULL => matches!(data, Data::NULL(_)),
            Type::WKS => matches!(data, Data::WKS { .. }),
            Type::PTR => matches!(data, Data::PTR(_)),
            Type::HINFO => matches!(data, Data::HINFO { .. }),
            Type::MINFO => matches!(data, Data::MINFO { .. }),
            Type::MX => matches!(data, Data::MX { .. }),
            Type::TXT => matches!(data, Data::TXT(_)),
        };
        if !matches {
            return Err(Error::TypeMismatch);
        }
        Ok(ResourceRecord { name, rtype, class, ttl, data })
    }

    /// The owner name.
    pub fn name(&self) -> (r: &str)
        ensures
            r@ == self@.name,
    {
        self.name.as_str()
    }

    /// The RR type.
    pub fn rtype(&self) -> (r: Type)
        ensures
            r == self@.rtype,
    {
        self.rtype
    }

    /// The RR class.
    pub fn class(&self) -> (r: Class)
        ensures
            r == self@.class,
    {
        self.class
    }

    /// The time to live.
    pub fn ttl(&self) -> (r: i32)
        ensures
            r == self@.ttl,
    {
        self.ttl
    }

    /// The data payload.
    pub fn data(&self) -> (r: &Data)
        ensures
            r@ == self@.data,
    {
        &self.data
    }

    /// Reads a signed 32-bit TTL at `*pos`, moving past it on success.
    pub fn parse_ttl(msg: &[u8], pos: &mut usize) -> (r: Result<i32, Error>)
        requires
            *old(pos) <= msg@.len(),
        ensures
            *old(pos) + 4 > msg@.len() ==> r == Err::<i32, Error>(Error::Incomplete(Field::Ttl))
                && *final(pos) == *old(pos),
            *old(pos) + 4 <= msg@.len() ==> r == Ok::<i32, Error>(
                be32(msg@, *old(pos) as int) as i32,
            ) && *final(pos) == *old(pos) + 4,
    {
        if msg.len() - *pos < 4 {
            return Err(Error::Incomplete(Field::Ttl));
        }
        let v = #[verifier::truncate] (read_u32(msg, *pos) as i32);
        *pos = *pos + 4;
        Ok(v)
    }

    /// Reads the record at `*pos`; its names may point anywhere earlier in
    /// `msg`. On success `*pos` moves past the record.
    pub fn parse(msg: &[u8], pos: &mut usize) -> (r: Result<ResourceRecord, Error>)
        requires
            *old(pos) <= msg@.len(),
        ensures
            r is Ok <==> rr_at(msg@, *old(pos) as int) is Ok,
            r is Ok ==> r->Ok_0@ == rr_at(msg@, *old(pos) as int)->Ok_0.0,
            r is Ok ==> *final(pos) == rr_at(msg@, *old(pos) as int)->Ok_0.1,
            r is Ok ==> r->Ok_0.wf(),
            r is Err ==> r->Err_0 == rr_at(msg@, *old(pos) as int)->Err_0,
    {
        let name = match name::parse(msg, pos, msg.len()) {
            Ok(n) => n,
            Err(e) => {
                return Err(e);
            },
        };
        let rtype = match Type::parse(msg, pos) {
            Ok(t) => t,
            Err(e) => {
                return Err(e);
            },
        };
        let class = match Class::parse(msg, pos) {
            Ok(c) => c,
            Err(e) => {
                return Err(e);
            },
        };
        let ttl = match ResourceRecord::parse_ttl(msg, pos) {
            Ok(t) => t,
            Err(e) => {
                return Err(e);
            },
        };
        let ghost dpos = *pos;
        let data = match Data::parse(msg, pos, rtype) {
            Ok(d) => d,
            Err(e) => {
                return Err(e);
            },
        };
        proof {
            lemma_data_type(msg@, dpos as int, rtype);
        }
        Ok(ResourceRecord { name, rtype, class, ttl, data })
    }

    /// Writes the record, its name without compression.
    pub fn serialize(&self) -> (r: Result<Vec<u8>, Error>)
        ensures
            r is Ok <==> rr_bytes(self@) is Ok,
            r is Ok ==> r->Ok_0@ == rr_bytes(self@)->Ok_0,
            r is Err ==> r->Err_0 == rr_bytes(self@)->Err_0,
    {
        let mut out = match name::serialize(self.name.as_str(), None) {
            Ok(w) => w,
            Err(e) => {
                return Err(e);
            },
        };
        let data = match self.data.serialize() {
            Ok(d) => d,
            Err(e) => {
                return Err(e);
            },
        };
        if data.len() > 0xffff {
            return Err(Error::DataTooLong);
        }
        put_u16(&mut out, self.rtype.serialize());
        put_u16(&mut out, self.class.serialize());
        put_u32(&mut out, #[verifier::truncate] (self.ttl as u32));
        put_u16(&mut out, data.len() as u16);
        put_range(&mut out, data.as_slice(), 0, data.len());
        assert(data@.subrange(0, data@.len() as int) =~= data@);
        Ok(out)
    }
}

pub(crate) proof fn lemma_be16_at(msg: Seq<u8>, q: int, v: u16)
    requires
        0 <= q,
        q + 2 <= msg.len(),
        msg.subrange(q, q + 2) == u16_bytes(v),
    ensures
        be16(msg, q) == v,
{
    let pre = msg.subrange(0, q);
    let post = msg.subrange(q + 2, msg.len() as int);
    assert(msg =~= pre + u16_bytes(v) + post);
    crate::wire::lemma_u16_round_trip(v, pre, post);
}

proof fn lemma_be32_at(msg: Seq<u8>, q: int, v: u32)
    requires
        0 <= q,
        q + 4 <= msg.len(),
        msg.subrange(q, q + 4) == u32_bytes(v),
    ensures
        be32(msg, q) == v,
{
    let pre = msg.subrange(0, q);
    let post = msg.subrange(q + 4, msg.len() as int);
    assert(msg =~= pre + u32_bytes(v) + post);
    crate::wire::lemma_u32_round_trip(v, pre, post);
}

/// The part of `msg` from `p` holds `w`.
pub open spec fn holds_at(msg: Seq<u8>, p: int, w: Seq<u8>) -> bool {
    0 <= p && p + w.len() <= msg.len() && msg.subrange(p, p + w.len()) == w
}

pub(crate) proof fn lemma_holds_split(msg: Seq<u8>, p: int, a: Seq<u8>, b: Seq<u8>)
    requires
        holds_at(msg, p, a + b),
    ensures
        holds_at(msg, p, a),
        holds_at(msg, p + a.len(), b),
{
    assert forall|k: int| 0 <= k < a.len() implies msg.subrange(p, p + a.len())[k] == a[k] by {
        assert(msg.subrange(p, p + a.len())[k] == msg.subrange(p, p + (a + b).len())[k]);
    }
    assert forall|k: int| 0 <= k < b.len() implies msg.subrange(p + a.len(), p + a.len() + b.len())[k]
        == b[k] by {
        assert(msg.subrange(p + a.len(), p + a.len() + b.len())[k] == msg.subrange(
            p,
            p + (a + b).len(),
        )[a.len() + k]);
    }
    assert(msg.subrange(p, p + a.len()) =~= a);
    assert(msg.subrange(p + a.len(), p + a.len() + b.len()) =~= b);
}

proof fn lemma_string_at(msg: Seq<u8>, p: int, lim: int, s: Seq<char>)
    requires
        string_bytes(s) is Ok,
        holds_at(msg, p, string_bytes(s)->Ok_0),
        p + string_bytes(s)->Ok_0.len() <= lim <= msg.len(),
    ensures
        string_at(msg, p, lim) == Ok::<(Seq<char>, int), Error>(
            (s, p + string_bytes(s)->Ok_0.len()),
        ),
{
    let b = encode_utf8(s);
    let w = string_bytes(s)->Ok_0;
    lemma_holds_split(msg, p, seq![b.len() as u8], b);
    assert(msg[p] == msg.subrange(p, p + 1)[0]);
    assert(msg[p] == b.len());
    assert(msg.subrange(p + 1, p + 1 + msg[p]) == b);
    encode_utf8_valid_utf8(s);
    encode_utf8_decode_utf8(s);
}

proof fn lemma_txt_front(l: Seq<Seq<char>>)
    requires
        l.len() > 0,
        txt_bytes(l) is Ok,
    ensures
        string_bytes(l[0]) is Ok,
        txt_bytes(l.drop_first()) is Ok,
        txt_bytes(l)->Ok_0 == string_bytes(l[0])->Ok_0 + txt_bytes(l.drop_first())->Ok_0,
    decreases l.len(),
{
    if l.len() == 1 {
        assert(l.drop_last() =~= Seq::<Seq<char>>::empty());
        assert(l.drop_first() =~= Seq::<Seq<char>>::empty());
        assert(l.last() == l[0]);
        assert(txt_bytes(l)->Ok_0 =~= string_bytes(l[0])->Ok_0 + Seq::<u8>::empty());
    } else {
        let dl = l.drop_last();
        lemma_txt_front(dl);
        assert(dl[0] == l[0]);
        assert(l.drop_first().drop_last() =~= dl.drop_first());
        assert(l.drop_first().last() == l.last());
        assert(txt_bytes(l)->Ok_0 =~= string_bytes(l[0])->Ok_0 + txt_bytes(l.drop_first())->Ok_0);
    }
}

proof fn lemma_txt_from(msg: Seq<u8>, p: int, lim: int, l: Seq<Seq<char>>)
    requires
        txt_bytes(l) is Ok,
        holds_at(msg, p, txt_bytes(l)->Ok_0),
        p + txt_bytes(l)->Ok_0.len() == lim,
    ensures
        txt_from(msg, p, lim) == (l, lim),
    decreases l.len(),
{
    if l.len() == 0 {
        assert(l =~= Seq::<Seq<char>>::empty());
    } else {
        lemma_txt_front(l);
        let sb = string_bytes(l[0])->Ok_0;
        let rest = txt_bytes(l.drop_first())->Ok_0;
        lemma_holds_split(msg, p, sb, rest);
        lemma_string_at(msg, p, lim, l[0]);
        lemma_txt_from(msg, p + sb.len(), lim, l.drop_first());
        assert(seq![l[0]] + l.drop_first() =~= l);
    }
}

proof fn lemma_name_holds(msg: Seq<u8>, p: int, lim: int, n: Seq<char>)
    requires
        serialized(n, None) is Ok,
        holds_at(msg, p, serialized(n, None)->Ok_0),
        p + serialized(n, None)->Ok_0.len() <= lim <= msg.len(),
    ensures
        name_at(msg, p, lim) == Ok::<(Seq<char>, int), Error>(
            (n, p + serialized(n, None)->Ok_0.len()),
        ),
{
    lemma_name_at(msg, p, lim, n);
}

proof fn lemma_soa_numbers(
    msg: Seq<u8>,
    q: int,
    serial: u32,
    refresh: u32,
    retry: u32,
    expire: u32,
    minimum: i32,
)
    requires
        holds_at(
            msg,
            q,
            u32_bytes(serial) + u32_bytes(refresh) + u32_bytes(retry) + u32_bytes(expire)
                + u32_bytes(minimum as u32),
        ),
    ensures
        be32(msg, q) == serial,
        be32(msg, q + 4) == refresh,
        be32(msg, q + 8) == retry,
        be32(msg, q + 12) == expire,
        be32(msg, q + 16) as i32 == minimum,
{
    let a = u32_bytes(serial);
    let b = u32_bytes(refresh);
    let c = u32_bytes(retry);
    let d = u32_bytes(expire);
    let e = u32_bytes(minimum as u32);
    assert(a + b + c + d + e =~= a + (b + (c + (d + e))));
    lemma_holds_split(msg, q, a, b + (c + (d + e)));
    lemma_holds_split(msg, q + 4, b, c + (d + e));
    lemma_holds_split(msg, q + 8, c, d + e);
    lemma_holds_split(msg, q + 12, d, e);
    lemma_be32_at(msg, q, serial);
    lemma_be32_at(msg, q + 4, refresh);
    lemma_be32_at(msg, q + 8, retry);
    lemma_be32_at(msg, q + 12, expire);
    lemma_be32_at(msg, q + 16, minimum as u32);
    crate::wire::lemma_i32_bits(minimum);
}

proof fn lemma_soa_round_trip(
    msg: Seq<u8>,
    p: int,
    mname: Seq<char>,
    rname: Seq<char>,
    serial: u32,
    refresh: u32,
    retry: u32,
    expire: u32,
    minimum: i32,
    d: DataV,
)
    requires
        d == (DataV::SOA { mname, rname, serial, refresh, retry, expire, minimum }),
        data_bytes(d) is Ok,
        holds_at(msg, p, data_bytes(d)->Ok_0),
    ensures
        payload(msg, p, p + data_bytes(d)->Ok_0.len(), Type::SOA) == Ok::<(DataV, int), Error>(
            (d, p + data_bytes(d)->Ok_0.len()),
        ),
{
    reveal(payload);
    let w = data_bytes(d)->Ok_0;
    let end = p + w.len();
    let nm = serialized(mname, None)->Ok_0;
    let nr = serialized(rname, None)->Ok_0;
    let nums = u32_bytes(serial) + u32_bytes(refresh) + u32_bytes(retry) + u32_bytes(expire)
        + u32_bytes(minimum as u32);
    assert(w == nm + nr + nums);
    lemma_holds_split(msg, p, nm + nr, nums);
    lemma_holds_split(msg, p, nm, nr);
    lemma_name_holds(msg, p, end, mname);
    lemma_name_holds(msg, p + nm.len(), end, rname);
    let q = p + nm.len() + nr.len();
    lemma_soa_numbers(msg, q, serial, refresh, retry, expire, minimum);
}

proof fn lemma_payload_round_trip(msg: Seq<u8>, p: int, d: DataV)
    requires
        data_bytes(d) is Ok,
        holds_at(msg, p, data_bytes(d)->Ok_0),
    ensures
        payload(msg, p, p + data_bytes(d)->Ok_0.len(), data_type(d)) == Ok::<(DataV, int), Error>(
            (d, p + data_bytes(d)->Ok_0.len()),
        ),
{
    reveal(payload);
    let w = data_bytes(d)->Ok_0;
    let end = p + w.len();
    match d {
        DataV::A(x) => {
            assert(msg[p] == msg.subrange(p, end)[0]);
            assert(msg[p + 1] == msg.subrange(p, end)[1]);
            assert(msg[p + 2] == msg.subrange(p, end)[2]);
            assert(msg[p + 3] == msg.subrange(p, end)[3]);
        },
        DataV::NS(n) => lemma_name_holds(msg, p, end, n),
        DataV::MD(n) => lemma_name_holds(msg, p, end, n),
        DataV::MF(n) => lemma_name_holds(msg, p, end, n),
        DataV::CNAME(n) => lemma_name_holds(msg, p, end, n),
        DataV::SOA { mname, rname, serial, refresh, retry, expire, minimum } => {
            lemma_soa_round_trip(
                msg,
                p,
                mname,
                rname,
                serial,
                refresh,
                retry,
                expire,
                minimum,
                d,
            );
        },
        DataV::MB(n) => lemma_name_holds(msg, p, end, n),
        DataV::MG(n) => lemma_name_holds(msg, p, end, n),
        DataV::MR(n) => lemma_name_holds(msg, p, end, n),
        DataV::NULL(b) => {},
        DataV::WKS { address, protocol, bit_map } => {
            assert(msg[p] == msg.subrange(p, end)[0]);
            assert(msg[p + 1] == msg.subrange(p, end)[1]);
            assert(msg[p + 2] == msg.subrange(p, end)[2]);
            assert(msg[p + 3] == msg.subrange(p, end)[3]);
            assert(msg[p + 4] == msg.subrange(p, end)[4]);
            lemma_holds_split(msg, p, addr_bytes(address) + seq![protocol], bit_map);
        },
        DataV::PTR(n) => lemma_name_holds(msg, p, end, n),
        DataV::HINFO { cpu, os } => {
            let a = string_bytes(cpu)->Ok_0;
            lemma_holds_split(msg, p, a, string_bytes(os)->Ok_0);
            lemma_string_at(msg, p, end, cpu);
            lemma_string_at(msg, p + a.len(), end, os);
        },
        DataV::MINFO { rmailbx, emailbx } => {
            let a = serialized(rmailbx, None)->Ok_0;
            lemma_holds_split(msg, p, a, serialized(emailbx, None)->Ok_0);
            lemma_name_holds(msg, p, end, rmailbx);
            lemma_name_holds(msg, p + a.len(), end, emailbx);
        },
        DataV::MX { preference, exchange } => {
            lemma_holds_split(msg, p, u16_bytes(preference as u16), serialized(exchange, None)->Ok_0);
            lemma_be16_at(msg, p, preference as u16);
            crate::wire::lemma_i16_bits(preference);
            lemma_name_holds(msg, p + 2, end, exchange);
        },
        DataV::TXT(l) => lemma_txt_from(msg, p, end, l),
    }
}

/// A payload written at `p` after its length reads back as itself, filling
/// exactly the declared length.
pub proof fn lemma_data_at(msg: Seq<u8>, p: int, d: DataV)
    requires
        data_bytes(d) is Ok,
        data_bytes(d)->Ok_0.len() <= 0xffff,
        holds_at(msg, p, u16_bytes(data_bytes(d)->Ok_0.len() as u16) + data_bytes(d)->Ok_0),
    ensures
        data_at(msg, p, data_type(d)) == Ok::<(DataV, int), Error>(
            (d, p + 2 + data_bytes(d)->Ok_0.len()),
        ),
{
    let w = data_bytes(d)->Ok_0;
    lemma_holds_split(msg, p, u16_bytes(w.len() as u16), w);
    lemma_be16_at(msg, p, w.len() as u16);
    lemma_payload_round_trip(msg, p + 2, d);
}

/// Every payload that serializes reads back as itself under its own type,
/// and the read consumes exactly the declared data length.
pub proof fn law_data_round_trip(d: DataV)
    requires
        data_bytes(d) is Ok,
        data_bytes(d)->Ok_0.len() <= 0xffff,
    ensures
        ({
            let w = data_bytes(d)->Ok_0;
            let msg = u16_bytes(w.len() as u16) + w;
            data_at(msg, 0, data_type(d)) == Ok::<(DataV, int), Error>((d, msg.len() as int))
        }),
{
    let w = data_bytes(d)->Ok_0;
    let msg = u16_bytes(w.len() as u16) + w;
    assert(msg.subrange(0, msg.len() as int) =~= msg);
    lemma_data_at(msg, 0, d);
}

/// A well-formed record written at `p` reads back as itself and ends right
/// after its bytes.
pub proof fn lemma_record_round_trip(msg: Seq<u8>, p: int, r: RrV)
    requires
        data_type(r.data) == r.rtype,
        rr_bytes(r) is Ok,
        holds_at(msg, p, rr_bytes(r)->Ok_0),
    ensures
        rr_at(msg, p) == Ok::<(RrV, int), Error>((r, p + rr_bytes(r)->Ok_0.len())),
{
    let nb = serialized(r.name, None)->Ok_0;
    let db = data_bytes(r.data)->Ok_0;
    let tb = u16_bytes(r.rtype.code());
    let cb = u16_bytes(r.class.code());
    let ttb = u32_bytes(r.ttl as u32);
    let lb = u16_bytes(db.len() as u16);
    let w = rr_bytes(r)->Ok_0;
    assert(w =~= nb + (tb + (cb + (ttb + (lb + db)))));
    lemma_holds_split(msg, p, nb, tb + (cb + (ttb + (lb + db))));
    let q = p + nb.len();
    lemma_holds_split(msg, q, tb, cb + (ttb + (lb + db)));
    lemma_holds_split(msg, q + 2, cb, ttb + (lb + db));
    lemma_holds_split(msg, q + 4, ttb, lb + db);
    lemma_name_at(msg, p, msg.len() as int, r.name);
    lemma_be16_at(msg, q, r.rtype.code());
    lemma_be16_at(msg, q + 2, r.class.code());
    lemma_be32_at(msg, q + 4, r.ttl as u32);
    crate::wire::lemma_i32_bits(r.ttl);
    lemma_data_at(msg, q + 8, r.data);
    assert(Type::from_code(r.rtype.code()) == Some(r.rtype));
    assert(Class::from_code(r.class.code()) == Some(r.class));
}

} // verus!
