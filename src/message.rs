//! The message header, questions, and whole messages.
use vstd::prelude::*;

use crate::error::{Error, Field};
use crate::name;
use crate::name::{lemma_name_at, name_at, serialized};
use crate::rr::{
    data_type, holds_at, lemma_be16_at, lemma_holds_split, lemma_record_round_trip, rr_at, rr_bytes,
    Class, ResourceRecord, RrV, Type,
};
use crate::wire::{be16, put_range, put_u16, read_u16, u16_bytes};

verus! {

/// The kind of a message: a query or a response (bit 15 of the flags word).
#[derive(Clone, Copy, Debug, PartialEq, Eq, Structural)]
pub enum QR {
    Query,
    Response,
}

impl QR {
    /// The flags word with only this kind set.
    pub fn build(&self) -> (r: u16)
        ensures
            r == (match self {
                QR::Query => 0u16,
                QR::Response => 0x8000u16,
            }),
    {
        match self {
            QR::Query => 0,
            QR::Response => 0x8000,
        }
    }

    /// The kind set in a flags word.
    pub fn parse(word: u16) -> (r: QR)
        ensures
            r == (if (word >> 15u16) & 1 == 1 {
                QR::Response
            } else {
                QR::Query
            }),
    {
        if (word >> 15u16) & 1 == 1 {
            QR::Response
        } else {
            QR::Query
        }
    }
}

/// Whether the answer is authoritative (bit 10 of the flags word).
#[derive(Clone, Copy, Debug, PartialEq, Eq, Structural)]
pub enum AA {
    NonAuthoritative,
    Authoritative,
}

impl AA {
    /// The flags word with only this flag set.
    pub fn build(&self) -> (r: u16)
        ensures
            r == (match self {
                AA::NonAuthoritative => 0u16,
                AA::Authoritative => 0x0400u16,
            }),
    {
        match self {
            AA::NonAuthoritative => 0,
            AA::Authoritative => 0x0400,
        }
    }

    /// The flag set in a flags word.
    pub fn parse(word: u16) -> (r: AA)
        ensures
            r == (if (word >> 10u16) & 1 == 1 {
                AA::Authoritative
            } else {
                AA::NonAuthoritative
            }),
    {
        if (word >> 10u16) & 1 == 1 {
            AA::Authoritative
        } else {
            AA::NonAuthoritative
        }
    }
}

/// The kind of query (bits 11 to 14 of the flags word).
#[derive(Clone, Copy, Debug, PartialEq, Eq, Structural)]
pub enum Opcode {
    StandardQuery,
    InverseQuery,
    ServerStatusRequest,
}

impl Opcode {
    /// The opcode's value.
    pub open spec fn code(self) -> u16 {
        match self {
            Opcode::StandardQuery => 0,
            Opcode::InverseQuery => 1,
            Opcode::ServerStatusRequest => 2,
        }
    }

    /// The opcode held in bits 11 to 14 of a flags word.
    pub open spec fn from_word(word: u16) -> Result<Opcode, Error> {
        let v = (word >> 11u16) & 0xf;
        if v == 0 {
            Ok(Opcode::StandardQuery)
        } else if v == 1 {
            Ok(Opcode::InverseQuery)
        } else if v == 2 {
            Ok(Opcode::ServerStatusRequest)
        } else {
            Err(Error::ReservedOpcode(v))
        }
    }

    /// Reads the opcode from bits 11 to 14 of a flags word.
    pub fn parse(word: u16) -> (r: Result<Opcode, Error>)
        ensures
            r == Opcode::from_word(word),
    {
        let v = (word >> 11u16) & 0xf;
        if v == 0 {
            Ok(Opcode::StandardQuery)
        } else if v == 1 {
            Ok(Opcode::InverseQuery)
        } else if v == 2 {
            Ok(Opcode::ServerStatusRequest)
        } else {
            Err(Error::ReservedOpcode(v))
        }
    }

    /// The opcode's value.
    pub fn serialize(&self) -> (r: u16)
        ensures
            r == self.code(),
    {
        match self {
            Opcode::StandardQuery => 0,
            Opcode::InverseQuery => 1,
            Opcode::ServerStatusRequest => 2,
        }
    }

    /// The flags word with only this opcode set.
    pub fn build(&self) -> (r: u16)
        ensures
            r == self.code() << 11u16,
            r == self.code() * 2048,
    {
        let v = self.serialize();
        assert(v << 11u16 == v * 2048) by (bit_vector)
            requires
                v <= 2,
        ;
        v << 11u16
    }
}

/// The outcome reported in a response (bits 0 to 3 of the flags word).
#[derive(Clone, Copy, Debug, PartialEq, Eq, Structural)]
pub enum ResponseCode {
    NoError,
    FormatError,
    ServerFailure,
    NameError,
    NotImplemented,
    Refused,
}

impl ResponseCode {
    /// The response code's value.
    pub open spec fn code(self) -> u16 {
        match self {
            ResponseCode::NoError => 0,
            ResponseCode::FormatError => 1,
            ResponseCode::ServerFailure => 2,
            ResponseCode::NameError => 3,
            ResponseCode::NotImplemented => 4,
            ResponseCode::Refused => 5,
        }
    }

    /// The response code held in bits 0 to 3 of a flags word.
    pub open spec fn from_word(word: u16) -> Result<ResponseCode, Error> {
        let v = word & 0xf;
        if v == 0 {
            Ok(ResponseCode::NoError)
        } else if v == 1 {
            Ok(ResponseCode::FormatError)
        } else if v == 2 {
            Ok(ResponseCode::ServerFailure)
        } else if v == 3 {
            Ok(ResponseCode::NameError)
        } else if v == 4 {
            Ok(ResponseCode::NotImplemented)
        } else if v == 5 {
            Ok(ResponseCode::Refused)
        } else {
            Err(Error::ReservedResponseCode(v))
        }
    }

    /// Reads the response code from bits 0 to 3 of a flags word.
    pub fn parse(word: u16) -> (r: Result<ResponseCode, Error>)
        ensures
            r == ResponseCode::from_word(word),
    {
        let v = word & 0xf;
        if v == 0 {
            Ok(ResponseCode::NoError)
        } else if v == 1 {
            Ok(ResponseCode::FormatError)
        } else if v == 2 {
            Ok(ResponseCode::ServerFailure)
        } else if v == 3 {
            Ok(ResponseCode::NameError)
        } else if v == 4 {
            Ok(ResponseCode::NotImplemented)
        } else if v == 5 {
            Ok(ResponseCode::Refused)
        } else {
            Err(Error::ReservedResponseCode(v))
        }
    }

    /// The response code's value.
    pub fn serialize(&self) -> (r: u16)
        ensures
            r == self.code(),
    {
        match self {
            ResponseCode::NoError => 0,
            ResponseCode::FormatError => 1,
            ResponseCode::ServerFailure => 2,
            ResponseCode::NameError => 3,
            ResponseCode::NotImplemented => 4,
            ResponseCode::Refused => 5,
        }
    }
}

/// The fixed twelve-byte header of a message.
#[derive(Clone, Copy, Debug, PartialEq, Eq, Structural)]
pub struct Header {
    pub id: u16,
    pub is_response: bool,
    pub opcode: Opcode,
    pub is_authoritative_answer: bool,
    pub is_truncated: bool,
    pub is_recursion_desired: bool,
    pub is_recursion_available: bool,
    pub response_code: ResponseCode,
    pub question_count: u16,
    pub answer_count: u16,
    pub authority_count: u16,
    pub additional_count: u16,
}

/// 1 for `true`, 0 for `false`.
pub open spec fn bit(b: bool) -> u16 {
    if b {
        1
    } else {
        0
    }
}

/// The flags word of a header.
pub open spec fn flags_word(h: Header) -> u16 {
    (bit(h.is_response) << 15u16) | (h.opcode.code() << 11u16) | (bit(h.is_authoritative_answer)
        << 10u16) | (bit(h.is_truncated) << 9u16) | (bit(h.is_recursion_desired) << 8u16) | (bit(
        h.is_recursion_available,
    ) << 7u16) | h.response_code.code()
}

/// The twelve bytes of a header.
pub open spec fn header_bytes(h: Header) -> Seq<u8> {
    u16_bytes(h.id) + u16_bytes(flags_word(h)) + u16_bytes(h.question_count) + u16_bytes(
        h.answer_count,
    ) + u16_bytes(h.authority_count) + u16_bytes(h.additional_count)
}

/// The header read from the twelve bytes at `p`.
#[verifier::opaque]
pub open spec fn header_at(msg: Seq<u8>, p: int) -> Result<Header, Error> {
    let w = be16(msg, p + 2);
    if p + 2 > msg.len() {
        Err(Error::Incomplete(Field::Id))
    } else if p + 4 > msg.len() {
        Err(Error::Incomplete(Field::Bitfields))
    } else if Opcode::from_word(w) is Err {
        Err(Opcode::from_word(w)->Err_0)
    } else if (w >> 4u16) & 7 != 0 {
        Err(Error::ReservedBitsSet)
    } else if ResponseCode::from_word(w) is Err {
        Err(ResponseCode::from_word(w)->Err_0)
    } else if p + 6 > msg.len() {
        Err(Error::Incomplete(Field::QuestionCount))
    } else if p + 8 > msg.len() {
        Err(Error::Incomplete(Field::AnswerCount))
    } else if p + 10 > msg.len() {
        Err(Error::Incomplete(Field::AuthorityCount))
    } else if p + 12 > msg.len() {
        Err(Error::Incomplete(Field::AdditionalCount))
    } else {
        Ok(
            Header {
                id: be16(msg, p),
                is_response: (w >> 15u16) & 1 == 1,
                opcode: Opcode::from_word(w)->Ok_0,
                is_authoritative_answer: (w >> 10u16) & 1 == 1,
                is_truncated: (w >> 9u16) & 1 == 1,
                is_recursion_desired: (w >> 8u16) & 1 == 1,
                is_recursion_available: (w >> 7u16) & 1 == 1,
                response_code: ResponseCode::from_word(w)->Ok_0,
                question_count: be16(msg, p + 4),
                answer_count: be16(msg, p + 6),
                authority_count: be16(msg, p + 8),
                additional_count: be16(msg, p + 10),
            },
        )
    }
}

impl Header {
    /// Reads the header at `*pos`, moving past its twelve bytes on success.
    pub fn parse(msg: &[u8], pos: &mut usize) -> (r: Result<Header, Error>)
        requires
            *old(pos) <= msg@.len(),
        ensures
            r == header_at(msg@, *old(pos) as int),
            r is Ok ==> *final(pos) == *old(pos) + 12 <= msg@.len(),
            r is Err ==> *final(pos) == *old(pos),
    {
        reveal(header_at);
        let p = *pos;
        if msg.len() - p < 2 {
            return Err(Error::Incomplete(Field::Id));
        }
        let id = read_u16(msg, p);
        if msg.len() - p < 4 {
            return Err(Error::Incomplete(Field::Bitfields));
        }
        let w = read_u16(msg, p + 2);
        let is_response = QR::parse(w) == QR::Response;
        let opcode = match Opcode::parse(w) {
            Ok(o) => o,
            Err(e) => {
                return Err(e);
            },
        };
        let is_authoritative_answer = AA::parse(w) == AA::Authoritative;
        let is_truncated = (w >> 9u16) & 1 == 1;
        let is_recursion_desired = (w >> 8u16) & 1 == 1;
        let is_recursion_available = (w >> 7u16) & 1 == 1;
        if (w >> 4u16) & 7 != 0 {
            return Err(Error::ReservedBitsSet);
        }
        let response_code = match ResponseCode::parse(w) {
            Ok(c) => c,
            Err(e) => {
                return Err(e);
            },
        };
        if msg.len() - p < 6 {
            return Err(Error::Incomplete(Field::QuestionCount));
        }
        let question_count = read_u16(msg, p + 4);
        if msg.len() - p < 8 {
            return Err(Error::Incomplete(Field::AnswerCount));
        }
        let answer_count = read_u16(msg, p + 6);
        if msg.len() - p < 10 {
            return Err(Error::Incomplete(Field::AuthorityCount));
        }
        let authority_count = read_u16(msg, p + 8);
        if msg.len() - p < 12 {
            return Err(Error::Incomplete(Field::AdditionalCount));
        }
        let additional_count = read_u16(msg, p + 10);
        *pos = p + 12;
        Ok(
            Header {
                id,
                is_response,
                opcode,
                is_authoritative_answer,
                is_truncated,
                is_recursion_desired,
                is_recursion_available,
                response_code,
                question_count,
                answer_count,
                authority_count,
                additional_count,
            },
        )
    }

    /// Writes the header as twelve bytes.
    pub fn serialize(&self) -> (r: Vec<u8>)
        ensures
            r@ == header_bytes(*self),
            r@.len() == 12,
    {
        let qr = if self.is_response {
            QR::Response
        } else {
            QR::Query
        };
        let aa = if self.is_authoritative_answer {
            AA::Authoritative
        } else {
            AA::NonAuthoritative
        };
        let tc: u16 = if self.is_truncated {
            1
        } else {
            0
        };
        let rd: u16 = if self.is_recursion_desired {
            1
        } else {
            0
        };
        let ra: u16 = if self.is_recursion_available {
            1
        } else {
            0
        };
        let qrb = qr.build();
        let opb = self.opcode.build();
        let aab = aa.build();
        let rc = self.response_code.serialize();
        let op = self.opcode.serialize();
        let ghost qv = bit(self.is_response);
        let ghost av = bit(self.is_authoritative_answer);
        assert(qrb == qv << 15u16 && aab == av << 10u16) by {
            assert(0u16 << 15u16 == 0u16 && 1u16 << 15u16 == 0x8000u16) by (bit_vector);
            assert(0u16 << 10u16 == 0u16 && 1u16 << 10u16 == 0x0400u16) by (bit_vector);
        }
        let flags = qrb | opb | aab | (tc << 9u16) | (rd << 8u16) | (ra << 7u16) | rc;
        let mut out: Vec<u8> = Vec::new();
        put_u16(&mut out, self.id);
        put_u16(&mut out, flags);
        put_u16(&mut out, self.question_count);
        put_u16(&mut out, self.answer_count);
        put_u16(&mut out, self.authority_count);
        put_u16(&mut out, self.additional_count);
        out
    }
}

proof fn lemma_flags_fields(qr: u16, op: u16, aa: u16, tc: u16, rd: u16, ra: u16, rc: u16)
    requires
        qr <= 1,
        op <= 2,
        aa <= 1,
        tc <= 1,
        rd <= 1,
        ra <= 1,
        rc <= 5,
    ensures
        ({
            let w = (qr << 15u16) | (op << 11u16) | (aa << 10u16) | (tc << 9u16) | (rd << 8u16) | (ra
                << 7u16) | rc;
            &&& (w >> 15u16) & 1 == qr
            &&& (w >> 11u16) & 0xf == op
            &&& (w >> 10u16) & 1 == aa
            &&& (w >> 9u16) & 1 == tc
            &&& (w >> 8u16) & 1 == rd
            &&& (w >> 7u16) & 1 == ra
            &&& (w >> 4u16) & 7 == 0
            &&& w & 0xf == rc
        }),
{
    assert({
        let w = (qr << 15u16) | (op << 11u16) | (aa << 10u16) | (tc << 9u16) | (rd << 8u16) | (ra
            << 7u16) | rc;
        &&& (w >> 15u16) & 1 == qr
        &&& (w >> 11u16) & 0xf == op
        &&& (w >> 10u16) & 1 == aa
        &&& (w >> 9u16) & 1 == tc
        &&& (w >> 8u16) & 1 == rd
        &&& (w >> 7u16) & 1 == ra
        &&& (w >> 4u16) & 7 == 0
        &&& w & 0xf == rc
    }) by (bit_vector)
        requires
            qr <= 1,
            op <= 2,
            aa <= 1,
            tc <= 1,
            rd <= 1,
            ra <= 1,
            rc <= 5,
    ;
}

proof fn lemma_header_words(h: Header, rest: Seq<u8>)
    ensures
        header_bytes(h).len() == 12,
        ({
            let b = header_bytes(h) + rest;
            &&& b.len() >= 12
            &&& be16(b, 0) == h.id
            &&& be16(b, 2) == flags_word(h)
            &&& be16(b, 4) == h.question_count
            &&& be16(b, 6) == h.answer_count
            &&& be16(b, 8) == h.authority_count
            &&& be16(b, 10) == h.additional_count
        }),
{
    let w = flags_word(h);
    let b = header_bytes(h) + rest;
    let e = Seq::<u8>::empty();
    let f0 = u16_bytes(h.id);
    let f1 = u16_bytes(w);
    let f2 = u16_bytes(h.question_count);
    let f3 = u16_bytes(h.answer_count);
    let f4 = u16_bytes(h.authority_count);
    let f5 = u16_bytes(h.additional_count);
    crate::wire::lemma_u16_round_trip(h.id, e, f1 + f2 + f3 + f4 + f5 + rest);
    assert(b =~= e + f0 + (f1 + f2 + f3 + f4 + f5 + rest));
    crate::wire::lemma_u16_round_trip(w, f0, f2 + f3 + f4 + f5 + rest);
    assert(b =~= f0 + f1 + (f2 + f3 + f4 + f5 + rest));
    crate::wire::lemma_u16_round_trip(h.question_count, f0 + f1, f3 + f4 + f5 + rest);
    assert(b =~= (f0 + f1) + f2 + (f3 + f4 + f5 + rest));
    crate::wire::lemma_u16_round_trip(h.answer_count, f0 + f1 + f2, f4 + f5 + rest);
    assert(b =~= (f0 + f1 + f2) + f3 + (f4 + f5 + rest));
    crate::wire::lemma_u16_round_trip(h.authority_count, f0 + f1 + f2 + f3, f5 + rest);
    assert(b =~= (f0 + f1 + f2 + f3) + f4 + (f5 + rest));
    crate::wire::lemma_u16_round_trip(h.additional_count, f0 + f1 + f2 + f3 + f4, rest);
    assert(b =~= (f0 + f1 + f2 + f3 + f4) + f5 + rest);
}

/// A serialized header parses back to itself, whatever follows it, and is
/// twelve bytes long.
pub proof fn law_header_round_trip(h: Header, rest: Seq<u8>)
    ensures
        header_bytes(h).len() == 12,
        header_at(header_bytes(h) + rest, 0) == Ok::<Header, Error>(h),
{
    reveal(header_at);
    let w = flags_word(h);
    lemma_header_words(h, rest);
    lemma_flags_fields(
        bit(h.is_response),
        h.opcode.code(),
        bit(h.is_authoritative_answer),
        bit(h.is_truncated),
        bit(h.is_recursion_desired),
        bit(h.is_recursion_available),
        h.response_code.code(),
    );
    assert(Opcode::from_word(w) == Ok::<Opcode, Error>(h.opcode));
    assert(ResponseCode::from_word(w) == Ok::<ResponseCode, Error>(h.response_code));
}

/// The type asked for in a question: an RR type or one of the query-only types.
#[derive(Clone, Copy, Debug, PartialEq, Eq, Structural)]
pub enum QuestionType {
    RrType(Type),
    Afxr,
    Mailb,
    Maila,
    All,
}

impl QuestionType {
    /// The wire code of the question type.
    pub open spec fn code(self) -> u16 {
        match self {
            QuestionType::RrType(t) => t.code(),
            QuestionType::Afxr => 252,
            QuestionType::Mailb => 253,
            QuestionType::Maila => 254,
            QuestionType::All => 255,
        }
    }

    /// The question type read from two bytes at `p`.
    pub open spec fn read_at(msg: Seq<u8>, p: int) -> Result<QuestionType, Error> {
        let v = be16(msg, p);
        if p + 2 > msg.len() {
            Err(Error::Incomplete(Field::QuestionType))
        } else if Type::from_code(v) is Some {
            Ok(QuestionType::RrType(Type::from_code(v)->0))
        } else if v == 252 {
            Ok(QuestionType::Afxr)
        } else if v == 253 {
            Ok(QuestionType::Mailb)
        } else if v == 254 {
            Ok(QuestionType::Maila)
        } else if v == 255 {
            Ok(QuestionType::All)
        } else {
            Err(Error::InvalidQuestionType(v))
        }
    }

    /// Reads a question type at `*pos`: an RR type first, else a query-only
    /// type. Moves past it on success.
    pub fn parse(msg: &[u8], pos: &mut usize) -> (r: Result<QuestionType, Error>)
        requires
            *old(pos) <= msg@.len(),
        ensures
            r == QuestionType::read_at(msg@, *old(pos) as int),
            r is Ok ==> *final(pos) == *old(pos) + 2,
            r is Err ==> *final(pos) == *old(pos),
    {
        if msg.len() - *pos < 2 {
            return Err(Error::Incomplete(Field::QuestionType));
        }
        let mut peek = *pos;
        if let Ok(t) = Type::parse(msg, &mut peek) {
            *pos = *pos + 2;
            return Ok(QuestionType::RrType(t));
        }
        let v = read_u16(msg, *pos);
        let q = if v == 252 {
            QuestionType::Afxr
        } else if v == 253 {
            QuestionType::Mailb
        } else if v == 254 {
            QuestionType::Maila
        } else if v == 255 {
            QuestionType::All
        } else {
            return Err(Error::InvalidQuestionType(v));
        };
        *pos = *pos + 2;
        Ok(q)
    }

    /// The wire code of the question type.
    pub fn serialize(&self) -> (r: u16)
        ensures
            r == self.code(),
    {
        match self {
            QuestionType::RrType(t) => t.serialize(),
            QuestionType::Afxr => 252,
            QuestionType::Mailb => 253,
            QuestionType::Maila => 254,
            QuestionType::All => 255,
        }
    }
}

/// The class asked for in a question: an RR class or any class.
#[derive(Clone, Copy, Debug, PartialEq, Eq, Structural)]
pub enum QuestionClass {
    RrClass(Class),
    Any,
}

impl QuestionClass {
    /// The wire code of the question class.
    pub open spec fn code(self) -> u16 {
        match self {
            QuestionClass::RrClass(c) => c.code(),
            QuestionClass::Any => 255,
        }
    }

    /// The question class read from two bytes at `p`.
    pub open spec fn read_at(msg: Seq<u8>, p: int) -> Result<QuestionClass, Error> {
        let v = be16(msg, p);
        if p + 2 > msg.len() {
            Err(Error::Incomplete(Field::QuestionClass))
        } else if Class::from_code(v) is Some {
            Ok(QuestionClass::RrClass(Class::from_code(v)->0))
        } else if v == 255 {
            Ok(QuestionClass::Any)
        } else {
            Err(Error::InvalidQuestionClass(v))
        }
    }

    /// Reads a question class at `*pos`: an RR class first, else the
    /// wildcard class. Moves past it on success.
    pub fn parse(msg: &[u8], pos: &mut usize) -> (r: Result<QuestionClass, Error>)
        requires
            *old(pos) <= msg@.len(),
        ensures
            r == QuestionClass::read_at(msg@, *old(pos) as int),
            r is Ok ==> *final(pos) == *old(pos) + 2,
            r is Err ==> *final(pos) == *old(pos),
    {
        if msg.len() - *pos < 2 {
            return Err(Error::Incomplete(Field::QuestionClass));
        }
        let mut peek = *pos;
        if let Ok(c) = Class::parse(msg, &mut peek) {
            *pos = *pos + 2;
            return Ok(QuestionClass::RrClass(c));
        }
        let v = read_u16(msg, *pos);
        if v != 255 {
            return Err(Error::InvalidQuestionClass(v));
        }
        *pos = *pos + 2;
        Ok(QuestionClass::Any)
    }

    /// The wire code of the question class.
    pub fn serialize(&self) -> (r: u16)
        ensures
            r == self.code(),
    {
        match self {
            QuestionClass::RrClass(c) => c.serialize(),
            QuestionClass::Any => 255,
        }
    }
}

/// What a question holds.
pub struct QuestionV {
    pub name: Seq<char>,
    pub qtype: QuestionType,
    pub class: QuestionClass,
}

/// An entry of the question section.
#[derive(Clone, Debug, PartialEq, Eq)]
pub struct Question {
    pub name: String,
    pub qtype: QuestionType,
    pub class: QuestionClass,
}

impl View for Question {
    type V = QuestionV;

    open spec fn view(&self) -> QuestionV {
        QuestionV { name: self.name@, qtype: self.qtype, class: self.class }
    }
}

/// The question read at `p`, and the offset past it.
pub open spec fn question_at(msg: Seq<u8>, p: int) -> Result<(QuestionV, int), Error> {
    match name_at(msg, p, msg.len() as int) {
        Err(e) => Err(e),
        Ok((n, q)) => match QuestionType::read_at(msg, q) {
            Err(e) => Err(e),
            Ok(t) => match QuestionClass::read_at(msg, q + 2) {
                Err(e) => Err(e),
                Ok(c) => Ok((QuestionV { name: n, qtype: t, class: c }, q + 4)),
            },
        },
    }
}

/// The wire form of a question; its name is never compressed, as the first
/// name of a message has nothing earlier to point to.
pub open spec fn question_bytes(q: QuestionV) -> Result<Seq<u8>, Error> {
    match serialized(q.name, None) {
        Err(e) => Err(e),
        Ok(nb) => Ok(nb + u16_bytes(q.qtype.code()) + u16_bytes(q.class.code())),
    }
}

impl Question {
    /// Reads the question at `*pos`; its name may point anywhere earlier in
    /// `msg`. On success `*pos` moves past it.
    pub fn parse(msg: &[u8], pos: &mut usize) -> (r: Result<Question, Error>)
        requires
            *old(pos) <= msg@.len(),
        ensures
            r is Ok <==> question_at(msg@, *old(pos) as int) is Ok,
            r is Ok ==> r->Ok_0@ == question_at(msg@, *old(pos) as int)->Ok_0.0,
            r is Ok ==> *final(pos) == question_at(msg@, *old(pos) as int)->Ok_0.1,
            r is Err ==> r->Err_0 == question_at(msg@, *old(pos) as int)->Err_0,
    {
        let name = match name::parse(msg, pos, msg.len()) {
            Ok(n) => n,
            Err(e) => {
                return Err(e);
            },
        };
        let qtype = match QuestionType::parse(msg, pos) {
            Ok(t) => t,
            Err(e) => {
                return Err(e);
            },
        };
        let class = match QuestionClass::parse(msg, pos) {
            Ok(c) => c,
            Err(e) => {
                return Err(e);
            },
        };
        Ok(Question { name, qtype, class })
    }

    /// Writes the question, its name uncompressed.
    pub fn serialize(&self) -> (r: Result<Vec<u8>, Error>)
        ensures
            r is Ok <==> question_bytes(self@) is Ok,
            r is Ok ==> r->Ok_0@ == question_bytes(self@)->Ok_0,
            r is Err ==> r->Err_0 == question_bytes(self@)->Err_0,
    {
        let mut out = match name::serialize(self.name.as_str(), None) {
            Ok(w) => w,
            Err(e) => {
                return Err(e);
            },
        };
        put_u16(&mut out, self.qtype.serialize());
        put_u16(&mut out, self.class.serialize());
        Ok(out)
    }
}

/// What a message holds.
pub struct MessageV {
    pub header: Header,
    pub questions: Seq<QuestionV>,
    pub answers: Seq<RrV>,
    pub authorities: Seq<RrV>,
    pub additionals: Seq<RrV>,
}

/// A whole message: the header and its four sections in order.
#[derive(Clone, Debug, PartialEq, Eq)]
pub struct Message {
    pub header: Header,
    pub questions: Vec<Question>,
    pub answers: Vec<ResourceRecord>,
    pub authorities: Vec<ResourceRecord>,
    pub additionals: Vec<ResourceRecord>,
}

impl View for Message {
    type V = MessageV;

    open spec fn view(&self) -> MessageV {
        MessageV {
            header: self.header,
            questions: self.questions@.map_values(|q: Question| q@),
            answers: self.answers@.map_values(|r: ResourceRecord| r@),
            authorities: self.authorities@.map_values(|r: ResourceRecord| r@),
            additionals: self.additionals@.map_values(|r: ResourceRecord| r@),
        }
    }
}

/// `n` questions read one after another from `p`, and the offset past them.
pub open spec fn questions_at(msg: Seq<u8>, p: int, n: nat) -> Result<(Seq<QuestionV>, int), Error>
    decreases n,
{
    if n == 0 {
        Ok((seq![], p))
    } else {
        match question_at(msg, p) {
            Err(e) => Err(e),
            Ok((q, p1)) => match questions_at(msg, p1, (n - 1) as nat) {
                Err(e) => Err(e),
                Ok((qs, e)) => Ok((seq![q] + qs, e)),
            },
        }
    }
}

/// `n` records read one after another from `p`, and the offset past them.
pub open spec fn records_at(msg: Seq<u8>, p: int, n: nat) -> Result<(Seq<RrV>, int), Error>
    decreases n,
{
    if n == 0 {
        Ok((seq![], p))
    } else {
        match rr_at(msg, p) {
            Err(e) => Err(e),
            Ok((r, p1)) => match records_at(msg, p1, (n - 1) as nat) {
                Err(e) => Err(e),
                Ok((rs, e)) => Ok((seq![r] + rs, e)),
            },
        }
    }
}

/// The message in `msg`: the header, then as many questions and records in
/// each section as the header counts.
pub open spec fn message_at(msg: Seq<u8>) -> Result<MessageV, Error> {
    match header_at(msg, 0) {
        Err(e) => Err(e),
        Ok(h) => match questions_at(msg, 12, h.question_count as nat) {
            Err(e) => Err(e),
            Ok((qs, p1)) => match records_at(msg, p1, h.answer_count as nat) {
                Err(e) => Err(e),
                Ok((an, p2)) => match records_at(msg, p2, h.authority_count as nat) {
                    Err(e) => Err(e),
                    Ok((ns, p3)) => match records_at(msg, p3, h.additional_count as nat) {
                        Err(e) => Err(e),
                        Ok((ar, _)) => Ok(
                            MessageV {
                                header: h,
                                questions: qs,
                                answers: an,
                                authorities: ns,
                                additionals: ar,
                            },
                        ),
                    },
                },
            },
        },
    }
}

/// `done` followed by what `r` read, or `r`'s error.
pub open spec fn after<T>(done: Seq<T>, r: Result<(Seq<T>, int), Error>) -> Result<
    (Seq<T>, int),
    Error,
> {
    match r {
        Ok((xs, e)) => Ok((done + xs, e)),
        Err(e) => Err(e),
    }
}

/// The questions of `l`, one after another.
pub open spec fn questions_bytes(l: Seq<QuestionV>) -> Result<Seq<u8>, Error>
    decreases l.len(),
{
    if l.len() == 0 {
        Ok(seq![])
    } else {
        crate::rr::join(questions_bytes(l.drop_last()), question_bytes(l.last()))
    }
}

/// The records of `l`, one after another.
pub open spec fn records_bytes(l: Seq<RrV>) -> Result<Seq<u8>, Error>
    decreases l.len(),
{
    if l.len() == 0 {
        Ok(seq![])
    } else {
        crate::rr::join(records_bytes(l.drop_last()), rr_bytes(l.last()))
    }
}

/// `h` with its counts replaced by the lengths of the sections of `m`.
pub open spec fn counted(m: MessageV) -> Header {
    Header {
        question_count: m.questions.len() as u16,
        answer_count: m.answers.len() as u16,
        authority_count: m.authorities.len() as u16,
        additional_count: m.additionals.len() as u16,
        ..m.header
    }
}

/// The wire form of a message, its header counts taken from its sections.
pub open spec fn message_bytes(m: MessageV) -> Result<Seq<u8>, Error> {
    if m.questions.len() > 0xffff || m.answers.len() > 0xffff || m.authorities.len() > 0xffff
        || m.additionals.len() > 0xffff {
        Err(Error::CountTooLarge)
    } else {
        crate::rr::join(
            crate::rr::join(
                crate::rr::join(
                    crate::rr::join(Ok(header_bytes(counted(m))), questions_bytes(m.questions)),
                    records_bytes(m.answers),
                ),
                records_bytes(m.authorities),
            ),
            records_bytes(m.additionals),
        )
    }
}

fn parse_questions(msg: &[u8], pos: &mut usize, n: u16) -> (r: Result<Vec<Question>, Error>)
    requires
        *old(pos) <= msg@.len(),
    ensures
        r is Ok <==> questions_at(msg@, *old(pos) as int, n as nat) is Ok,
        r is Ok ==> r->Ok_0@.map_values(|q: Question| q@) == questions_at(
            msg@,
            *old(pos) as int,
            n as nat,
        )->Ok_0.0,
        r is Ok ==> *final(pos) == questions_at(msg@, *old(pos) as int, n as nat)->Ok_0.1,
        r is Ok ==> *final(pos) <= msg@.len(),
        r is Err ==> r->Err_0 == questions_at(msg@, *old(pos) as int, n as nat)->Err_0,
{
    let mut list: Vec<Question> = Vec::new();
    let mut i: u16 = 0;
    while i < n
        invariant
            i <= n,
            *pos <= msg@.len(),
            questions_at(msg@, *old(pos) as int, n as nat) == after(
                list@.map_values(|q: Question| q@),
                questions_at(msg@, *pos as int, (n - i) as nat),
            ),
        decreases n - i,
    {
        let ghost lv = list@.map_values(|q: Question| q@);
        let ghost p = *pos as int;
        let q = match Question::parse(msg, pos) {
            Ok(q) => q,
            Err(e) => {
                return Err(e);
            },
        };
        proof {
            lemma_question_end(msg@, p);
        }
        let ghost qv = q@;
        list.push(q);
        assert(list@.map_values(|q: Question| q@) =~= lv.push(qv));
        assert(after(lv, questions_at(msg@, p, (n - i) as nat)) =~~= after(
            lv.push(qv),
            questions_at(msg@, *pos as int, (n - i - 1) as nat),
        )) by {
            match questions_at(msg@, *pos as int, (n - i - 1) as nat) {
                Ok((qs, e)) => {
                    assert(lv + (seq![qv] + qs) =~= lv.push(qv) + qs);
                },
                Err(_) => {},
            }
        }
        i = i + 1;
    }
    assert(list@.map_values(|q: Question| q@) + Seq::<QuestionV>::empty() =~= list@.map_values(
        |q: Question| q@,
    ));
    Ok(list)
}

fn parse_records(msg: &[u8], pos: &mut usize, n: u16) -> (r: Result<Vec<ResourceRecord>, Error>)
    requires
        *old(pos) <= msg@.len(),
    ensures
        r is Ok <==> records_at(msg@, *old(pos) as int, n as nat) is Ok,
        r is Ok ==> r->Ok_0@.map_values(|x: ResourceRecord| x@) == records_at(
            msg@,
            *old(pos) as int,
            n as nat,
        )->Ok_0.0,
        r is Ok ==> *final(pos) == records_at(msg@, *old(pos) as int, n as nat)->Ok_0.1,
        r is Ok ==> *final(pos) <= msg@.len(),
        r is Err ==> r->Err_0 == records_at(msg@, *old(pos) as int, n as nat)->Err_0,
{
    let mut list: Vec<ResourceRecord> = Vec::new();
    let mut i: u16 = 0;
    while i < n
        invariant
            i <= n,
            *pos <= msg@.len(),
            records_at(msg@, *old(pos) as int, n as nat) == after(
                list@.map_values(|x: ResourceRecord| x@),
                records_at(msg@, *pos as int, (n - i) as nat),
            ),
        decreases n - i,
    {
        let ghost lv = list@.map_values(|x: ResourceRecord| x@);
        let ghost p = *pos as int;
        let x = match ResourceRecord::parse(msg, pos) {
            Ok(x) => x,
            Err(e) => {
                return Err(e);
            },
        };
        proof {
            lemma_record_end(msg@, p);
        }
        let ghost xv = x@;
        list.push(x);
        assert(list@.map_values(|x: ResourceRecord| x@) =~= lv.push(xv));
        assert(after(lv, records_at(msg@, p, (n - i) as nat)) =~~= after(
            lv.push(xv),
            records_at(msg@, *pos as int, (n - i - 1) as nat),
        )) by {
            match records_at(msg@, *pos as int, (n - i - 1) as nat) {
                Ok((xs, e)) => {
                    assert(lv + (seq![xv] + xs) =~= lv.push(xv) + xs);
                },
                Err(_) => {},
            }
        }
        i = i + 1;
    }
    assert(list@.map_values(|x: ResourceRecord| x@) + Seq::<RrV>::empty() =~= list@.map_values(
        |x: ResourceRecord| x@,
    ));
    Ok(list)
}

proof fn lemma_question_end(msg: Seq<u8>, p: int)
    ensures
        question_at(msg, p) is Ok ==> question_at(msg, p)->Ok_0.1 <= msg.len(),
{
}

proof fn lemma_record_end(msg: Seq<u8>, p: int)
    ensures
        rr_at(msg, p) is Ok ==> rr_at(msg, p)->Ok_0.1 <= msg.len(),
{
}

impl Message {
    /// Parses a whole message: the header, then as many questions and
    /// records in each section as the header counts. Names may point
    /// anywhere earlier in `msg`.
    pub fn parse(msg: &[u8]) -> (r: Result<Message, Error>)
        ensures
            r is Ok <==> message_at(msg@) is Ok,
            r is Ok ==> r->Ok_0@ == message_at(msg@)->Ok_0,
            r is Err ==> r->Err_0 == message_at(msg@)->Err_0,
    {
        let mut pos: usize = 0;
        let header = match Header::parse(msg, &mut pos) {
            Ok(h) => h,
            Err(e) => {
                return Err(e);
            },
        };
        let questions = match parse_questions(msg, &mut pos, header.question_count) {
            Ok(l) => l,
            Err(e) => {
                return Err(e);
            },
        };
        let answers = match parse_records(msg, &mut pos, header.answer_count) {
            Ok(l) => l,
            Err(e) => {
                return Err(e);
            },
        };
        let authorities = match parse_records(msg, &mut pos, header.authority_count) {
            Ok(l) => l,
            Err(e) => {
                return Err(e);
            },
        };
        let additionals = match parse_records(msg, &mut pos, header.additional_count) {
            Ok(l) => l,
            Err(e) => {
                return Err(e);
            },
        };
        Ok(Message { header, questions, answers, authorities, additionals })
    }
}

proof fn lemma_questions_err_extends(l: Seq<QuestionV>, i: int)
    requires
        0 <= i <= l.len(),
        questions_bytes(l.subrange(0, i)) is Err,
    ensures
        questions_bytes(l) == questions_bytes(l.subrange(0, i)),
    decreases l.len() - i,
{
    if i < l.len() {
        assert(l.subrange(0, i + 1).drop_last() =~= l.subrange(0, i));
        lemma_questions_err_extends(l, i + 1);
    } else {
        assert(l.subrange(0, i) =~= l);
    }
}

proof fn lemma_records_err_extends(l: Seq<RrV>, i: int)
    requires
        0 <= i <= l.len(),
        records_bytes(l.subrange(0, i)) is Err,
    ensures
        records_bytes(l) == records_bytes(l.subrange(0, i)),
    decreases l.len() - i,
{
    if i < l.len() {
        assert(l.subrange(0, i + 1).drop_last() =~= l.subrange(0, i));
        lemma_records_err_extends(l, i + 1);
    } else {
        assert(l.subrange(0, i) =~= l);
    }
}

fn put_questions(out: &mut Vec<u8>, l: &Vec<Question>) -> (r: Result<(), Error>)
    ensures
        r is Ok <==> questions_bytes(l@.map_values(|q: Question| q@)) is Ok,
        r is Ok ==> final(out)@ == old(out)@ + questions_bytes(
            l@.map_values(|q: Question| q@),
        )->Ok_0,
        r is Err ==> r->Err_0 == questions_bytes(l@.map_values(|q: Question| q@))->Err_0,
{
    let ghost lv = l@.map_values(|q: Question| q@);
    let ghost start = out@;
    let mut i: usize = 0;
    while i < l.len()
        invariant
            i <= l@.len(),
            lv == l@.map_values(|q: Question| q@),
            start == old(out)@,
            questions_bytes(lv.subrange(0, i as int)) is Ok,
            out@ == start + questions_bytes(lv.subrange(0, i as int))->Ok_0,
        decreases l@.len() - i,
    {
        assert(lv.subrange(0, i + 1).drop_last() =~= lv.subrange(0, i as int));
        assert(lv.subrange(0, i + 1).last() == l@[i as int]@);
        let w = match l[i].serialize() {
            Ok(w) => w,
            Err(e) => {
                proof {
                    lemma_questions_err_extends(lv, i + 1);
                }
                return Err(e);
            },
        };
        put_range(out, w.as_slice(), 0, w.len());
        assert(w@.subrange(0, w@.len() as int) =~= w@);
        assert(out@ =~= start + questions_bytes(lv.subrange(0, i + 1))->Ok_0);
        i = i + 1;
    }
    assert(lv.subrange(0, i as int) =~= lv);
    Ok(())
}

fn put_records(out: &mut Vec<u8>, l: &Vec<ResourceRecord>) -> (r: Result<(), Error>)
    ensures
        r is Ok <==> records_bytes(l@.map_values(|x: ResourceRecord| x@)) is Ok,
        r is Ok ==> final(out)@ == old(out)@ + records_bytes(
            l@.map_values(|x: ResourceRecord| x@),
        )->Ok_0,
        r is Err ==> r->Err_0 == records_bytes(l@.map_values(|x: ResourceRecord| x@))->Err_0,
{
    let ghost lv = l@.map_values(|x: ResourceRecord| x@);
    let ghost start = out@;
    let mut i: usize = 0;
    while i < l.len()
        invariant
            i <= l@.len(),
            lv == l@.map_values(|x: ResourceRecord| x@),
            start == old(out)@,
            records_bytes(lv.subrange(0, i as int)) is Ok,
            out@ == start + records_bytes(lv.subrange(0, i as int))->Ok_0,
        decreases l@.len() - i,
    {
        assert(lv.subrange(0, i + 1).drop_last() =~= lv.subrange(0, i as int));
        assert(lv.subrange(0, i + 1).last() == l@[i as int]@);
        let w = match l[i].serialize() {
            Ok(w) => w,
            Err(e) => {
                proof {
                    lemma_records_err_extends(lv, i + 1);
                }
                return Err(e);
            },
        };
        put_range(out, w.as_slice(), 0, w.len());
        assert(w@.subrange(0, w@.len() as int) =~= w@);
        assert(out@ =~= start + records_bytes(lv.subrange(0, i + 1))->Ok_0);
        i = i + 1;
    }
    assert(lv.subrange(0, i as int) =~= lv);
    Ok(())
}

impl Message {
    /// Writes the message. The header counts are taken from the lengths of
    /// the sections, not from `header`; names are written uncompressed.
    pub fn serialize(&self) -> (r: Result<Vec<u8>, Error>)
        ensures
            r is Ok <==> message_bytes(self@) is Ok,
            r is Ok ==> r->Ok_0@ == message_bytes(self@)->Ok_0,
            r is Err ==> r->Err_0 == message_bytes(self@)->Err_0,
    {
        if self.questions.len() > 0xffff || self.answers.len() > 0xffff
            || self.authorities.len() > 0xffff || self.additionals.len() > 0xffff {
            return Err(Error::CountTooLarge);
        }
        let header = Header {
            question_count: self.questions.len() as u16,
            answer_count: self.answers.len() as u16,
            authority_count: self.authorities.len() as u16,
            additional_count: self.additionals.len() as u16,
            ..self.header
        };
        assert(header == counted(self@));
        let mut out = header.serialize();
        if let Err(e) = put_questions(&mut out, &self.questions) {
            return Err(e);
        }
        if let Err(e) = put_records(&mut out, &self.answers) {
            return Err(e);
        }
        if let Err(e) = put_records(&mut out, &self.authorities) {
            return Err(e);
        }
        if let Err(e) = put_records(&mut out, &self.additionals) {
            return Err(e);
        }
        Ok(out)
    }
}

proof fn lemma_question_round_trip(msg: Seq<u8>, p: int, q: QuestionV)
    requires
        question_bytes(q) is Ok,
        holds_at(msg, p, question_bytes(q)->Ok_0),
    ensures
        question_at(msg, p) == Ok::<(QuestionV, int), Error>(
            (q, p + question_bytes(q)->Ok_0.len()),
        ),
{
    let nb = serialized(q.name, None)->Ok_0;
    let tb = u16_bytes(q.qtype.code());
    let cb = u16_bytes(q.class.code());
    assert(question_bytes(q)->Ok_0 =~= nb + (tb + cb));
    lemma_holds_split(msg, p, nb, tb + cb);
    lemma_holds_split(msg, p + nb.len(), tb, cb);
    lemma_name_at(msg, p, msg.len() as int, q.name);
    lemma_be16_at(msg, p + nb.len(), q.qtype.code());
    lemma_be16_at(msg, p + nb.len() + 2, q.class.code());
    assert(QuestionType::read_at(msg, p + nb.len()) == Ok::<QuestionType, Error>(q.qtype));
    assert(QuestionClass::read_at(msg, p + nb.len() + 2) == Ok::<QuestionClass, Error>(q.class));
}

proof fn lemma_questions_front(l: Seq<QuestionV>)
    requires
        l.len() > 0,
        questions_bytes(l) is Ok,
    ensures
        question_bytes(l[0]) is Ok,
        questions_bytes(l.drop_first()) is Ok,
        questions_bytes(l)->Ok_0 == question_bytes(l[0])->Ok_0 + questions_bytes(
            l.drop_first(),
        )->Ok_0,
    decreases l.len(),
{
    if l.len() == 1 {
        assert(l.drop_last() =~= Seq::<QuestionV>::empty());
        assert(l.drop_first() =~= Seq::<QuestionV>::empty());
        assert(questions_bytes(l)->Ok_0 =~= question_bytes(l[0])->Ok_0 + Seq::<u8>::empty());
    } else {
        let dl = l.drop_last();
        lemma_questions_front(dl);
        assert(l.drop_first().drop_last() =~= dl.drop_first());
        assert(questions_bytes(l)->Ok_0 =~= question_bytes(l[0])->Ok_0 + questions_bytes(
            l.drop_first(),
        )->Ok_0);
    }
}

proof fn lemma_records_front(l: Seq<RrV>)
    requires
        l.len() > 0,
        records_bytes(l) is Ok,
    ensures
        rr_bytes(l[0]) is Ok,
        records_bytes(l.drop_first()) is Ok,
        records_bytes(l)->Ok_0 == rr_bytes(l[0])->Ok_0 + records_bytes(l.drop_first())->Ok_0,
    decreases l.len(),
{
    if l.len() == 1 {
        assert(l.drop_last() =~= Seq::<RrV>::empty());
        assert(l.drop_first() =~= Seq::<RrV>::empty());
        assert(records_bytes(l)->Ok_0 =~= rr_bytes(l[0])->Ok_0 + Seq::<u8>::empty());
    } else {
        let dl = l.drop_last();
        lemma_records_front(dl);
        assert(l.drop_first().drop_last() =~= dl.drop_first());
        assert(records_bytes(l)->Ok_0 =~= rr_bytes(l[0])->Ok_0 + records_bytes(
            l.drop_first(),
        )->Ok_0);
    }
}

proof fn lemma_questions_at(msg: Seq<u8>, p: int, l: Seq<QuestionV>)
    requires
        questions_bytes(l) is Ok,
        holds_at(msg, p, questions_bytes(l)->Ok_0),
    ensures
        questions_at(msg, p, l.len()) == Ok::<(Seq<QuestionV>, int), Error>(
            (l, p + questions_bytes(l)->Ok_0.len()),
        ),
    decreases l.len(),
{
    if l.len() == 0 {
        assert(l =~= Seq::<QuestionV>::empty());
    } else {
        lemma_questions_front(l);
        let a = question_bytes(l[0])->Ok_0;
        lemma_holds_split(msg, p, a, questions_bytes(l.drop_first())->Ok_0);
        lemma_question_round_trip(msg, p, l[0]);
        lemma_questions_at(msg, p + a.len(), l.drop_first());
        assert(seq![l[0]] + l.drop_first() =~= l);
    }
}

/// Every record's data belongs to its type.
pub open spec fn records_wf(l: Seq<RrV>) -> bool {
    forall|i: int| 0 <= i < l.len() ==> data_type(#[trigger] l[i].data) == l[i].rtype
}

proof fn lemma_records_at(msg: Seq<u8>, p: int, l: Seq<RrV>)
    requires
        records_wf(l),
        records_bytes(l) is Ok,
        holds_at(msg, p, records_bytes(l)->Ok_0),
    ensures
        records_at(msg, p, l.len()) == Ok::<(Seq<RrV>, int), Error>(
            (l, p + records_bytes(l)->Ok_0.len()),
        ),
    decreases l.len(),
{
    if l.len() == 0 {
        assert(l =~= Seq::<RrV>::empty());
    } else {
        lemma_records_front(l);
        let a = rr_bytes(l[0])->Ok_0;
        lemma_holds_split(msg, p, a, records_bytes(l.drop_first())->Ok_0);
        lemma_record_round_trip(msg, p, l[0]);
        assert(records_wf(l.drop_first())) by {
            assert forall|i: int| 0 <= i < l.drop_first().len() implies data_type(
                #[trigger] l.drop_first()[i].data,
            ) == l.drop_first()[i].rtype by {
                assert(l.drop_first()[i] == l[i + 1]);
            }
        }
        lemma_records_at(msg, p + a.len(), l.drop_first());
        assert(seq![l[0]] + l.drop_first() =~= l);
    }
}

proof fn lemma_message_sections(m: MessageV, w: Seq<u8>)
    requires
        message_bytes(m) is Ok,
        w == message_bytes(m)->Ok_0,
        records_wf(m.answers),
        records_wf(m.authorities),
        records_wf(m.additionals),
    ensures
        ({
            let qb = questions_bytes(m.questions)->Ok_0;
            let ab = records_bytes(m.answers)->Ok_0;
            let nb = records_bytes(m.authorities)->Ok_0;
            let p1 = 12 + qb.len() as int;
            let p2 = p1 + ab.len() as int;
            let p3 = p2 + nb.len() as int;
            &&& header_at(w, 0) == Ok::<Header, Error>(counted(m))
            &&& questions_at(w, 12, m.questions.len()) == Ok::<(Seq<QuestionV>, int), Error>(
                (m.questions, p1),
            )
            &&& records_at(w, p1, m.answers.len()) == Ok::<(Seq<RrV>, int), Error>(
                (m.answers, p2),
            )
            &&& records_at(w, p2, m.authorities.len()) == Ok::<(Seq<RrV>, int), Error>(
                (m.authorities, p3),
            )
            &&& records_at(w, p3, m.additionals.len()) is Ok
            &&& records_at(w, p3, m.additionals.len())->Ok_0.0 == m.additionals
        }),
{
    let hb = header_bytes(counted(m));
    let qb = questions_bytes(m.questions)->Ok_0;
    let ab = records_bytes(m.answers)->Ok_0;
    let nb = records_bytes(m.authorities)->Ok_0;
    let rb = records_bytes(m.additionals)->Ok_0;
    assert(w == hb + qb + ab + nb + rb);
    law_header_round_trip(counted(m), qb + ab + nb + rb);
    assert(w =~= hb + (qb + ab + nb + rb));
    assert(w.subrange(0, w.len() as int) =~= w);
    assert(holds_at(w, 0, hb + (qb + (ab + (nb + rb))))) by {
        assert(hb + (qb + (ab + (nb + rb))) =~= w);
    }
    let p1 = 12 + qb.len() as int;
    let p2 = p1 + ab.len() as int;
    let p3 = p2 + nb.len() as int;
    lemma_holds_split(w, 0, hb, qb + (ab + (nb + rb)));
    lemma_holds_split(w, 12, qb, ab + (nb + rb));
    lemma_holds_split(w, p1, ab, nb + rb);
    lemma_holds_split(w, p2, nb, rb);
    lemma_questions_at(w, 12, m.questions);
    lemma_records_at(w, p1, m.answers);
    lemma_records_at(w, p2, m.authorities);
    lemma_records_at(w, p3, m.additionals);
}

/// A serialized message parses back to the same sections in the same
/// order, under a header whose counts are the sections' lengths.
pub proof fn law_message_round_trip(m: MessageV)
    requires
        message_bytes(m) is Ok,
        records_wf(m.answers),
        records_wf(m.authorities),
        records_wf(m.additionals),
    ensures
        message_at(message_bytes(m)->Ok_0) == Ok::<MessageV, Error>(
            MessageV {
                header: counted(m),
                questions: m.questions,
                answers: m.answers,
                authorities: m.authorities,
                additionals: m.additionals,
            },
        ),
{
    let w = message_bytes(m)->Ok_0;
    lemma_message_sections(m, w);
    let h = counted(m);
    assert(h.question_count as nat == m.questions.len());
    assert(h.answer_count as nat == m.answers.len());
    assert(h.authority_count as nat == m.authorities.len());
    assert(h.additional_count as nat == m.additionals.len());
}

} // verus!
