use bytes::{Buf, BufMut};
use rg_resolver::name;
use rg_resolver::{
    Class, Data, Error, Header, Ipv4Addr, Message, Opcode, Question, QuestionClass, QuestionType,
    ResourceRecord, ResponseCode, Type,
};

fn sample_header() -> Header {
    Header {
        id: 7,
        is_response: true,
        opcode: Opcode::StandardQuery,
        is_authoritative_answer: true,
        is_truncated: false,
        is_recursion_desired: false,
        is_recursion_available: true,
        response_code: ResponseCode::NoError,
        question_count: 2,
        answer_count: 2,
        authority_count: 2,
        additional_count: 2,
    }
}

#[test]
fn parse_opcode() {
    // The opcode sits in bits 11 to 14 of the flags word: `build` places it there.
    assert_eq!(Opcode::parse(Opcode::StandardQuery.build()).unwrap(), Opcode::StandardQuery);
    assert_eq!(Opcode::parse(Opcode::InverseQuery.build()).unwrap(), Opcode::InverseQuery);
    assert_eq!(
        Opcode::parse(Opcode::ServerStatusRequest.build()).unwrap(),
        Opcode::ServerStatusRequest
    );

    let bitfields = 3 << 11;
    assert!(Opcode::parse(bitfields).is_err());
}

#[test]
fn parse_response_code() {
    assert_eq!(ResponseCode::parse(ResponseCode::NoError.serialize()).unwrap(), ResponseCode::NoError);
    assert_eq!(
        ResponseCode::parse(ResponseCode::FormatError.serialize()).unwrap(),
        ResponseCode::FormatError
    );
    assert_eq!(
        ResponseCode::parse(ResponseCode::ServerFailure.serialize()).unwrap(),
        ResponseCode::ServerFailure
    );
    assert_eq!(
        ResponseCode::parse(ResponseCode::NameError.serialize()).unwrap(),
        ResponseCode::NameError
    );
    assert_eq!(
        ResponseCode::parse(ResponseCode::NotImplemented.serialize()).unwrap(),
        ResponseCode::NotImplemented
    );
    assert_eq!(ResponseCode::parse(ResponseCode::Refused.serialize()).unwrap(), ResponseCode::Refused);

    let bitfields = 6;
    assert!(ResponseCode::parse(bitfields).is_err());
}

#[test]
fn parse_header() {
    let header = sample_header();
    let buf = header.serialize();

    let mut pos = 0;
    let parsed_hdr = Header::parse(&buf, &mut pos).unwrap();

    assert_eq!(parsed_hdr.id, header.id);
    assert_eq!(parsed_hdr.is_response, header.is_response);
    assert_eq!(parsed_hdr.opcode, header.opcode);
    assert_eq!(parsed_hdr.is_authoritative_answer, header.is_authoritative_answer);
    assert_eq!(parsed_hdr.is_truncated, header.is_truncated);
    assert_eq!(parsed_hdr.is_recursion_desired, header.is_recursion_desired);
    assert_eq!(parsed_hdr.is_recursion_available, header.is_recursion_available);
    assert_eq!(parsed_hdr.response_code, header.response_code);
    assert_eq!(parsed_hdr.question_count, header.question_count);
    assert_eq!(parsed_hdr.answer_count, header.answer_count);
    assert_eq!(parsed_hdr.authority_count, header.authority_count);
    assert_eq!(parsed_hdr.additional_count, header.additional_count);
    assert_eq!(pos, buf.len());

    for n in [1, 3, 5, 7, 9, 11] {
        let mut pos = 0;
        assert!(Header::parse(&buf[..n], &mut pos).is_err());
    }
}

#[test]
fn parse_question_type() {
    let mut buf = Vec::new();
    buf.put_u16(Type::CNAME.serialize());
    let mut pos = 0;
    assert_eq!(QuestionType::parse(&buf, &mut pos).unwrap(), QuestionType::RrType(Type::CNAME));
    assert_eq!(pos, 2);

    for qtype in [QuestionType::Afxr, QuestionType::Mailb, QuestionType::Maila, QuestionType::All] {
        let mut buf = Vec::new();
        buf.put_u16(qtype.serialize());
        let mut pos = 0;
        assert_eq!(QuestionType::parse(&buf, &mut pos).unwrap(), qtype);
        assert_eq!(pos, buf.len());
    }

    let mut buf = Vec::new();
    buf.put_u16(256);
    let mut pos = 0;
    assert!(QuestionType::parse(&buf, &mut pos).is_err());

    let mut buf = Vec::new();
    buf.put_u8(252);
    let mut pos = 0;
    assert!(QuestionType::parse(&buf, &mut pos).is_err());
}

#[test]
fn parse_question_class() {
    let mut buf = Vec::new();
    buf.put_u16(Class::IN.serialize());
    let mut pos = 0;
    assert_eq!(QuestionClass::parse(&buf, &mut pos).unwrap(), QuestionClass::RrClass(Class::IN));
    assert_eq!(pos, buf.len());

    let mut buf = Vec::new();
    buf.put_u16(QuestionClass::Any.serialize());
    let mut pos = 0;
    assert_eq!(QuestionClass::parse(&buf, &mut pos).unwrap(), QuestionClass::Any);
    assert_eq!(pos, buf.len());

    let mut buf = Vec::new();
    buf.put_u16(256);
    let mut pos = 0;
    assert!(QuestionClass::parse(&buf, &mut pos).is_err());

    let mut buf = Vec::new();
    buf.put_u8(255);
    let mut pos = 0;
    assert!(QuestionClass::parse(&buf, &mut pos).is_err());
}

#[test]
fn parse_question() {
    let question = Question {
        name: "google.com.".to_string(),
        qtype: QuestionType::RrType(Type::CNAME),
        class: QuestionClass::RrClass(Class::IN),
    };
    let buf = question.serialize().unwrap();

    let mut pos = 0;
    let question_parsed = Question::parse(&buf, &mut pos).unwrap();

    assert_eq!(question_parsed.name, question.name);
    assert_eq!(question_parsed.qtype, question.qtype);
    assert_eq!(question_parsed.class, question.class);
    assert_eq!(pos, buf.len());
}

fn a_record(name: &str, octets: [u8; 4]) -> ResourceRecord {
    ResourceRecord::new(
        name.to_string(),
        Type::A,
        Class::IN,
        100,
        Data::A(Ipv4Addr::new(octets[0], octets[1], octets[2], octets[3])),
    )
    .unwrap()
}

fn question(name: &str) -> Question {
    Question {
        name: name.to_string(),
        qtype: QuestionType::RrType(Type::A),
        class: QuestionClass::RrClass(Class::IN),
    }
}

#[test]
fn parse_message() {
    let mut buf = Vec::new();
    buf.append(&mut sample_header().serialize());

    let question1 = question("google.com.");
    let question2 = question("amazon.com.");
    buf.append(&mut question1.serialize().unwrap());
    buf.append(&mut question2.serialize().unwrap());

    let answer1 = a_record("google.com.", [113, 234, 56, 89]);
    let answer2 = a_record("amazon.com.", [85, 107, 21, 77]);
    for _ in 0..3 {
        buf.append(&mut answer1.serialize().unwrap());
        buf.append(&mut answer2.serialize().unwrap());
    }

    let message = Message::parse(&buf).unwrap();
    assert_eq!(message.header, sample_header());
    assert_eq!(message.questions, vec![question1, question2]);
    assert_eq!(message.answers, vec![answer1.clone(), answer2.clone()]);
    assert_eq!(message.authorities, vec![answer1.clone(), answer2.clone()]);
    assert_eq!(message.additionals, vec![answer1, answer2]);
}

#[test]
fn serialize_opcode() {
    assert_eq!(Opcode::StandardQuery.serialize(), 0);
    assert_eq!(Opcode::InverseQuery.serialize(), 1);
    assert_eq!(Opcode::ServerStatusRequest.serialize(), 2);
}

#[test]
fn serialize_response_code() {
    assert_eq!(ResponseCode::NoError.serialize(), 0);
    assert_eq!(ResponseCode::FormatError.serialize(), 1);
    assert_eq!(ResponseCode::ServerFailure.serialize(), 2);
    assert_eq!(ResponseCode::NameError.serialize(), 3);
    assert_eq!(ResponseCode::NotImplemented.serialize(), 4);
    assert_eq!(ResponseCode::Refused.serialize(), 5);
}

#[test]
fn serialize_header() {
    let header = sample_header();
    let buf = header.serialize();

    let mut cursor = buf.as_slice();
    assert_eq!(cursor.get_u16(), header.id);
    let bitfields = cursor.get_u16();
    assert_eq!((bitfields >> 15) & 1 != 0, header.is_response);
    assert_eq!((bitfields >> 11) & 0xf, header.opcode.serialize());
    assert_eq!((bitfields >> 10) & 1 != 0, header.is_authoritative_answer);
    assert_eq!((bitfields >> 9) & 1 != 0, header.is_truncated);
    assert_eq!((bitfields >> 8) & 1 != 0, header.is_recursion_desired);
    assert_eq!((bitfields >> 7) & 1 != 0, header.is_recursion_available);
    assert_eq!((bitfields >> 4) & 7, 0);
    assert_eq!(bitfields & 0xf, header.response_code.serialize());
    assert_eq!(cursor.get_u16(), header.question_count);
    assert_eq!(cursor.get_u16(), header.answer_count);
    assert_eq!(cursor.get_u16(), header.authority_count);
    assert_eq!(cursor.get_u16(), header.additional_count);
}

#[test]
fn serialize_question_type() {
    assert_eq!(QuestionType::RrType(Type::CNAME).serialize(), 5);
    assert_eq!(QuestionType::Afxr.serialize(), 252);
    assert_eq!(QuestionType::Mailb.serialize(), 253);
    assert_eq!(QuestionType::Maila.serialize(), 254);
    assert_eq!(QuestionType::All.serialize(), 255);
}

#[test]
fn serialize_question_class() {
    assert_eq!(QuestionClass::RrClass(Class::IN).serialize(), 1);
    assert_eq!(QuestionClass::Any.serialize(), 255);
}

#[test]
fn serialize_question() {
    let question = Question {
        name: "google.com.".to_string(),
        qtype: QuestionType::RrType(Type::CNAME),
        class: QuestionClass::RrClass(Class::IN),
    };
    let buf = question.serialize().unwrap();
    // The question section holds the first name in the message, so it is not compressed.
    let name_ser = name::serialize(&question.name, None).unwrap();
    assert_eq!(&buf[..name_ser.len()], name_ser);
    let mut cursor = &buf[name_ser.len()..];
    assert_eq!(cursor.get_u16(), question.qtype.serialize());
    assert_eq!(cursor.get_u16(), question.class.serialize());
}

#[test]
fn serialize_message() {
    // The header written carries the section lengths, not the stale counts.
    let message = Message {
        header: sample_header(),
        questions: vec![question("google.com.")],
        answers: vec![a_record("google.com.", [1, 2, 3, 4])],
        authorities: vec![],
        additionals: vec![],
    };
    let buf = message.serialize().unwrap();

    let mut expected_header = sample_header();
    expected_header.question_count = 1;
    expected_header.answer_count = 1;
    expected_header.authority_count = 0;
    expected_header.additional_count = 0;
    let mut expected = expected_header.serialize();
    expected.append(&mut message.questions[0].serialize().unwrap());
    expected.append(&mut message.answers[0].serialize().unwrap());
    assert_eq!(buf, expected);

    let parsed = Message::parse(&buf).unwrap();
    assert_eq!(parsed.header, expected_header);
    assert_eq!(parsed.questions, message.questions);
    assert_eq!(parsed.answers, message.answers);
}

// Checks beyond those carried over.

#[test]
fn message_sections_follow_header_counts() {
    let mut header = sample_header();
    header.question_count = 2;
    header.answer_count = 4;
    header.authority_count = 1;
    header.additional_count = 3;
    let mut buf = header.serialize();
    let questions = vec![question("a.example."), question("b.example.")];
    for q in &questions {
        buf.append(&mut q.serialize().unwrap());
    }
    let records: Vec<ResourceRecord> =
        (0..8u8).map(|i| a_record(&format!("h{}.example.", i), [10, 0, 0, i])).collect();
    for r in &records {
        buf.append(&mut r.serialize().unwrap());
    }
    let message = Message::parse(&buf).unwrap();
    assert_eq!(message.questions, questions);
    assert_eq!(message.answers, records[0..4].to_vec());
    assert_eq!(message.authorities, records[4..5].to_vec());
    assert_eq!(message.additionals, records[5..8].to_vec());
}

#[test]
fn message_missing_record_fails() {
    let mut header = sample_header();
    header.question_count = 0;
    header.answer_count = 1;
    header.authority_count = 0;
    header.additional_count = 0;
    let buf = header.serialize();
    assert_eq!(Message::parse(&buf), Err(Error::Incomplete(rg_resolver::Field::Name)));
}

#[test]
fn header_errors() {
    let mut buf = sample_header().serialize();
    buf[2] |= 0x18; // opcode 3
    let mut pos = 0;
    assert_eq!(Header::parse(&buf, &mut pos), Err(Error::ReservedOpcode(3)));
    assert_eq!(pos, 0);

    let mut buf = sample_header().serialize();
    buf[3] |= 0x10; // a reserved bit
    assert_eq!(Header::parse(&buf, &mut pos), Err(Error::ReservedBitsSet));

    let mut buf = sample_header().serialize();
    buf[3] |= 0x0f; // response code 15
    assert_eq!(Header::parse(&buf, &mut pos), Err(Error::ReservedResponseCode(15)));

    let buf = sample_header().serialize();
    assert_eq!(Header::parse(&buf[..11], &mut pos), Err(Error::Incomplete(rg_resolver::Field::AdditionalCount)));
}

#[test]
fn header_exact_bytes() {
    let header = sample_header();
    assert_eq!(header.serialize(), vec![0, 7, 0x84, 0x80, 0, 2, 0, 2, 0, 2, 0, 2]);
}

#[test]
fn opcode_build_positions() {
    assert_eq!(Opcode::StandardQuery.build(), 0);
    assert_eq!(Opcode::InverseQuery.build(), 0x0800);
    assert_eq!(Opcode::ServerStatusRequest.build(), 0x1000);
}

#[test]
fn question_wildcards_round_trip() {
    let q = Question {
        name: "example.".to_string(),
        qtype: QuestionType::All,
        class: QuestionClass::Any,
    };
    let buf = q.serialize().unwrap();
    assert_eq!(buf, vec![7, b'e', b'x', b'a', b'm', b'p', b'l', b'e', 0, 0, 255, 0, 255]);
    let mut pos = 0;
    assert_eq!(Question::parse(&buf, &mut pos).unwrap(), q);
}
