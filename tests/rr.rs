use bytes::BufMut;
use rg_resolver::name;
use rg_resolver::{CharacterString, Class, Data, Error, Field, Ipv4Addr, ResourceRecord, Type};

fn round_trip(data: Data, rtype: Type) {
    let mut ser_data = data.serialize().unwrap();
    let mut buf = Vec::new();
    buf.put_u16(ser_data.len() as u16);
    buf.append(&mut ser_data);
    let mut pos = 0;
    assert_eq!(Data::parse(&buf, &mut pos, rtype).unwrap(), data);
    assert_eq!(pos, buf.len());
}

#[test]
fn parse_type() {
    let cases = [
        (1, Type::A),
        (2, Type::NS),
        (3, Type::MD),
        (4, Type::MF),
        (5, Type::CNAME),
        (6, Type::SOA),
        (7, Type::MB),
        (8, Type::MG),
        (9, Type::MR),
        (10, Type::NULL),
        (11, Type::WKS),
        (12, Type::PTR),
        (13, Type::HINFO),
        (14, Type::MINFO),
        (15, Type::MX),
        (16, Type::TXT),
    ];
    for (code, t) in cases {
        let data: [u8; 2] = [0, code];
        let mut pos = 0;
        assert!(matches!(Type::parse(&data, &mut pos), Ok(x) if x == t));
        assert_eq!(pos, data.len());
    }

    let mut pos = 0;
    assert!(Type::parse(&[0, 0], &mut pos).is_err());
    assert!(Type::parse(&[0, 17], &mut pos).is_err());
    assert!(Type::parse(&[1], &mut pos).is_err());
}

#[test]
fn parse_class() {
    let cases = [(1, Class::IN), (2, Class::CS), (3, Class::CH), (4, Class::HS)];
    for (code, c) in cases {
        let data: [u8; 2] = [0, code];
        let mut pos = 0;
        assert!(matches!(Class::parse(&data, &mut pos), Ok(x) if x == c));
        assert_eq!(pos, data.len());
    }

    let mut pos = 0;
    assert!(Class::parse(&[0, 0], &mut pos).is_err());
    assert!(Class::parse(&[0, 5], &mut pos).is_err());
    assert!(Class::parse(&[1], &mut pos).is_err());
}

#[test]
fn parse_ttl() {
    let mut pos = 0;
    let ttl = ResourceRecord::parse_ttl(&[0, 0, 0, 12], &mut pos).unwrap();
    assert_eq!(ttl, 12);

    let mut pos = 0;
    assert!(ResourceRecord::parse_ttl(&[0, 12], &mut pos).is_err());
}

#[test]
fn parse_data_a() {
    round_trip(Data::A(Ipv4Addr::new(118, 67, 12, 114)), Type::A);
}

#[test]
fn parse_data_ns() {
    round_trip(Data::NS("google.com.".to_string()), Type::NS);
}

#[test]
fn parse_data_md() {
    round_trip(Data::MD("google.com.".to_string()), Type::MD);
}

#[test]
fn parse_data_mf() {
    round_trip(Data::MF("google.com.".to_string()), Type::MF);
}

#[test]
fn parse_data_cname() {
    round_trip(Data::CNAME("google.com.".to_string()), Type::CNAME);
}

#[test]
fn parse_data_soa() {
    let data = Data::SOA {
        mname: "google.com.".to_string(),
        rname: "amazon.com.".to_string(),
        serial: 102,
        refresh: 20,
        retry: 45,
        expire: 60,
        minimum: 40,
    };
    round_trip(data, Type::SOA);
}

#[test]
fn parse_data_mb() {
    round_trip(Data::MB("google.com.".to_string()), Type::MB);
}

#[test]
fn parse_data_mg() {
    round_trip(Data::MG("google.com.".to_string()), Type::MG);
}

#[test]
fn parse_data_mr() {
    round_trip(Data::MR("google.com.".to_string()), Type::MR);
}

#[test]
fn parse_data_null() {
    round_trip(Data::NULL(vec![1, 2, 3, 4, 5, 6, 7, 8, 9, 10]), Type::NULL);
}

#[test]
fn parse_data_wks() {
    let data = Data::WKS {
        address: Ipv4Addr::new(34, 78, 119, 189),
        protocol: 6,
        bit_map: vec![10, 20, 30, 40],
    };
    round_trip(data, Type::WKS);
}

#[test]
fn parse_data_ptr() {
    round_trip(Data::PTR("google.com.".to_string()), Type::PTR);
}

#[test]
fn parse_data_hinfo() {
    let data = Data::HINFO { cpu: "x64".to_string(), os: "Ubuntu".to_string() };
    round_trip(data, Type::HINFO);
}

#[test]
fn parse_data_minfo() {
    let data = Data::MINFO {
        rmailbx: "google.com.".to_string(),
        emailbx: "amazon.com.".to_string(),
    };
    round_trip(data, Type::MINFO);
}

#[test]
fn parse_data_mx() {
    let data = Data::MX { preference: 8, exchange: "google.com.".to_string() };
    round_trip(data, Type::MX);
}

#[test]
fn parse_data_txt() {
    let data = Data::TXT(vec!["text1".to_string(), "text2".to_string(), "text3".to_string()]);
    round_trip(data, Type::TXT);
}

#[test]
fn parse_rr() {
    let rr = ResourceRecord::new(
        "google.com.".to_string(),
        Type::A,
        Class::IN,
        100,
        Data::A(Ipv4Addr::new(43, 56, 121, 92)),
    )
    .unwrap();
    let buf = rr.serialize().unwrap();

    let mut pos = 0;
    let parsed_rr = ResourceRecord::parse(&buf, &mut pos).unwrap();
    assert_eq!(parsed_rr.name(), rr.name());
    assert_eq!(parsed_rr.rtype(), rr.rtype());
    assert_eq!(parsed_rr.class(), rr.class());
    assert_eq!(parsed_rr.ttl(), rr.ttl());
    assert_eq!(parsed_rr.data(), rr.data());
    assert_eq!(pos, buf.len());
}

#[test]
fn parse_character_string() {
    let char_str = "testing 1 2 3";
    let buf = CharacterString::serialize(char_str).unwrap();
    let mut pos = 0;
    let parsed_char_str = CharacterString::parse(&buf, &mut pos, buf.len()).unwrap();
    assert_eq!(parsed_char_str, char_str);
    assert_eq!(pos, buf.len());
}

#[test]
fn serialize_type() {
    assert_eq!(Type::A.serialize(), 1);
    assert_eq!(Type::NS.serialize(), 2);
    assert_eq!(Type::MD.serialize(), 3);
    assert_eq!(Type::MF.serialize(), 4);
    assert_eq!(Type::CNAME.serialize(), 5);
    assert_eq!(Type::SOA.serialize(), 6);
    assert_eq!(Type::MB.serialize(), 7);
    assert_eq!(Type::MG.serialize(), 8);
    assert_eq!(Type::MR.serialize(), 9);
    assert_eq!(Type::NULL.serialize(), 10);
    assert_eq!(Type::WKS.serialize(), 11);
    assert_eq!(Type::PTR.serialize(), 12);
    assert_eq!(Type::HINFO.serialize(), 13);
    assert_eq!(Type::MINFO.serialize(), 14);
    assert_eq!(Type::MX.serialize(), 15);
    assert_eq!(Type::TXT.serialize(), 16);
}

#[test]
fn serialize_class() {
    assert_eq!(Class::IN.serialize(), 1);
    assert_eq!(Class::CS.serialize(), 2);
    assert_eq!(Class::CH.serialize(), 3);
    assert_eq!(Class::HS.serialize(), 4);
}

#[test]
fn serialize_data_a() {
    let octets = [160, 23, 58, 191];
    let data = Data::A(Ipv4Addr::new(octets[0], octets[1], octets[2], octets[3]));
    assert_eq!(data.serialize().unwrap(), octets);
}

fn name_bytes(n: &str) -> Vec<u8> {
    name::serialize(n, None).unwrap()
}

#[test]
fn serialize_data_ns() {
    let data = Data::NS("google.com.".to_string());
    assert_eq!(data.serialize().unwrap(), name_bytes("google.com."));
}

#[test]
fn serialize_data_md() {
    let data = Data::MD("google.com.".to_string());
    assert_eq!(data.serialize().unwrap(), name_bytes("google.com."));
}

#[test]
fn serialize_data_mf() {
    let data = Data::MF("google.com.".to_string());
    assert_eq!(data.serialize().unwrap(), name_bytes("google.com."));
}

#[test]
fn serialize_data_cname() {
    let data = Data::CNAME("google.com.".to_string());
    assert_eq!(data.serialize().unwrap(), name_bytes("google.com."));
}

#[test]
fn serialize_data_soa() {
    let mname = "google.com.";
    let rname = "amazon.com.";
    let serial = 25;
    let refresh = 10;
    let retry = 12;
    let expire = 24;
    let minimum = 30;
    let soa = Data::SOA {
        mname: mname.to_string(),
        rname: rname.to_string(),
        serial,
        refresh,
        retry,
        expire,
        minimum,
    };
    let mut expected = Vec::new();
    expected.append(&mut name_bytes(mname));
    expected.append(&mut name_bytes(rname));
    expected.put_u32(serial);
    expected.put_u32(refresh);
    expected.put_u32(retry);
    expected.put_u32(expire);
    expected.put_i32(minimum);
    assert_eq!(soa.serialize().unwrap(), expected);
}

#[test]
fn serialize_data_mb() {
    let data = Data::MB("google.com.".to_string());
    assert_eq!(data.serialize().unwrap(), name_bytes("google.com."));
}

#[test]
fn serialize_data_mg() {
    let data = Data::MG("google.com.".to_string());
    assert_eq!(data.serialize().unwrap(), name_bytes("google.com."));
}

#[test]
fn serialize_data_mr() {
    let data = Data::MR("google.com.".to_string());
    assert_eq!(data.serialize().unwrap(), name_bytes("google.com."));
}

#[test]
fn serialize_data_null() {
    let any = vec![1, 2, 3, 4, 5, 6, 7, 8, 9, 10];
    let data = Data::NULL(any.clone());
    assert_eq!(data.serialize().unwrap(), any);
}

#[test]
fn serialize_data_wks() {
    let octets = [123, 45, 98, 112];
    let address = Ipv4Addr::new(octets[0], octets[1], octets[2], octets[3]);
    let protocol = 6;
    let bit_map = vec![1, 2, 3, 4, 5, 6, 7, 8, 9, 10];
    let data = Data::WKS { address, protocol, bit_map: bit_map.clone() };
    let mut expected = Vec::new();
    octets.iter().for_each(|b| expected.put_u8(*b));
    expected.put_u8(protocol);
    bit_map.iter().for_each(|b| expected.put_u8(*b));
    assert_eq!(data.serialize().unwrap(), expected);
}

#[test]
fn serialize_data_ptr() {
    let data = Data::PTR("google.com.".to_string());
    assert_eq!(data.serialize().unwrap(), name_bytes("google.com."));
}

#[test]
fn serialize_data_hinfo() {
    let cpu = "x64";
    let os = "Ubuntu";
    let data = Data::HINFO { cpu: cpu.to_string(), os: os.to_string() };
    let mut expected = Vec::new();
    expected.append(&mut CharacterString::serialize(cpu).unwrap());
    expected.append(&mut CharacterString::serialize(os).unwrap());
    assert_eq!(data.serialize().unwrap(), expected);
}

#[test]
fn serialize_data_minfo() {
    let rmailbx = "google.com.";
    let emailbx = "amazon.com.";
    let data = Data::MINFO { rmailbx: rmailbx.to_string(), emailbx: emailbx.to_string() };
    let mut expected = Vec::new();
    expected.append(&mut name_bytes(rmailbx));
    expected.append(&mut name_bytes(emailbx));
    assert_eq!(data.serialize().unwrap(), expected);
}

#[test]
fn serialize_data_mx() {
    let preference = 12;
    let exchange = "google.com.";
    let data = Data::MX { preference, exchange: exchange.to_string() };
    let mut expected = Vec::new();
    expected.put_i16(preference);
    expected.append(&mut name_bytes(exchange));
    assert_eq!(data.serialize().unwrap(), expected);
}

#[test]
fn serialize_data_txt() {
    let txt1 = "content 1";
    let txt2 = "content 2";
    let txt3 = "content 3";
    let data = Data::TXT(vec![txt1.to_string(), txt2.to_string(), txt3.to_string()]);
    let mut expected = Vec::new();
    expected.append(&mut CharacterString::serialize(txt1).unwrap());
    expected.append(&mut CharacterString::serialize(txt2).unwrap());
    expected.append(&mut CharacterString::serialize(txt3).unwrap());
    assert_eq!(data.serialize().unwrap(), expected);
}

#[test]
fn serialize_rr() {
    let rr = ResourceRecord::new(
        "google.com.".to_string(),
        Type::A,
        Class::IN,
        100,
        Data::A(Ipv4Addr::new(43, 56, 121, 92)),
    )
    .unwrap();

    let mut expected = Vec::new();
    expected.append(&mut name_bytes(rr.name()));
    expected.put_u16(rr.rtype().serialize());
    expected.put_u16(rr.class().serialize());
    expected.put_i32(rr.ttl());
    let data_ser = rr.data().serialize().unwrap();
    expected.put_u16(data_ser.len() as u16);
    data_ser.iter().for_each(|b| expected.put_u8(*b));

    assert_eq!(rr.serialize().unwrap(), expected);
}

#[test]
fn serialize_character_string() {
    let teststr = "testing 1 2 3";
    let mut expected = Vec::new();
    expected.put_u8(teststr.len() as u8);
    teststr.as_bytes().iter().for_each(|b| expected.put_u8(*b));
    assert_eq!(CharacterString::serialize(teststr).unwrap(), expected);
}

// Checks beyond those carried over.

#[test]
fn a_record_exact_bytes() {
    let rr = ResourceRecord::new(
        "google.com.".to_string(),
        Type::A,
        Class::IN,
        100,
        Data::A(Ipv4Addr::new(43, 56, 121, 92)),
    )
    .unwrap();
    let mut expected = vec![6, b'g', b'o', b'o', b'g', b'l', b'e', 3, b'c', b'o', b'm', 0];
    expected.extend_from_slice(&[0, 1, 0, 1, 0, 0, 0, 100, 0, 4, 43, 56, 121, 92]);
    let buf = rr.serialize().unwrap();
    assert_eq!(buf, expected);
    let mut pos = 0;
    assert_eq!(ResourceRecord::parse(&buf, &mut pos).unwrap(), rr);
}

#[test]
fn record_type_must_match_data() {
    let r = ResourceRecord::new(
        "google.com.".to_string(),
        Type::NS,
        Class::IN,
        100,
        Data::A(Ipv4Addr::new(1, 2, 3, 4)),
    );
    assert_eq!(r, Err(Error::TypeMismatch));
}

#[test]
fn data_length_errors() {
    let mut pos = 0;
    assert_eq!(Data::parse(&[4], &mut pos, Type::A), Err(Error::Incomplete(Field::DataLength)));
    assert_eq!(Data::parse(&[0, 4, 156, 34], &mut pos, Type::A), Err(Error::Incomplete(Field::Data)));
    assert_eq!(Data::parse(&[0, 3, 1, 2, 3], &mut pos, Type::A), Err(Error::AddressLength));
    // A name shorter than the declared length leaves bytes over.
    assert_eq!(Data::parse(&[0, 3, 0, 9, 9], &mut pos, Type::NS), Err(Error::DataLengthMismatch));
    assert_eq!(pos, 0);
}

#[test]
fn data_names_may_point_into_message() {
    // "google.com." at offset 0, then an NS payload that points to it.
    let mut msg = name_bytes("google.com.");
    let at = msg.len();
    msg.append(&mut vec![0, 5, 2, b'n', b's', 0xc0, 0]);
    let mut pos = at;
    assert_eq!(Data::parse(&msg, &mut pos, Type::NS).unwrap(), Data::NS("ns.google.com.".to_string()));
    assert_eq!(pos, msg.len());
}

#[test]
fn signed_fields_round_trip() {
    round_trip(Data::MX { preference: -2, exchange: "mx.example.".to_string() }, Type::MX);
    let soa = Data::SOA {
        mname: "a.".to_string(),
        rname: "b.".to_string(),
        serial: u32::MAX,
        refresh: 0,
        retry: 1,
        expire: 2,
        minimum: -1,
    };
    round_trip(soa, Type::SOA);
}

#[test]
fn txt_empty_and_unicode() {
    round_trip(Data::TXT(vec![]), Type::TXT);
    round_trip(Data::TXT(vec!["".to_string(), "héllo".to_string()]), Type::TXT);
    round_trip(Data::HINFO { cpu: "ARM".to_string(), os: "Linux ✓".to_string() }, Type::HINFO);
    round_trip(Data::NULL(vec![]), Type::NULL);
    round_trip(Data::WKS { address: Ipv4Addr::new(1, 2, 3, 4), protocol: 17, bit_map: vec![] }, Type::WKS);
}

#[test]
fn character_string_errors() {
    let mut pos = 0;
    assert_eq!(CharacterString::parse(&[], &mut pos, 0), Err(Error::Incomplete(Field::CharacterStringLength)));
    assert_eq!(CharacterString::parse(&[3, b'a'], &mut pos, 2), Err(Error::Incomplete(Field::CharacterString)));
    assert_eq!(CharacterString::parse(&[2, 0xff, 0xfe], &mut pos, 3), Err(Error::StringNotUtf8));
    assert_eq!(CharacterString::serialize(&"x".repeat(256)), Err(Error::StringTooLong));
    let longest = "x".repeat(255);
    let buf = CharacterString::serialize(&longest).unwrap();
    assert_eq!(buf[0], 255);
    assert_eq!(CharacterString::parse(&buf, &mut pos, buf.len()).unwrap(), longest);
}

#[test]
fn soa_truncated_counters() {
    let mut payload = name_bytes("a.");
    payload.append(&mut name_bytes("b."));
    payload.extend_from_slice(&[0, 0, 0, 1, 0, 0]);
    let mut buf = vec![0, payload.len() as u8];
    buf.append(&mut payload);
    let mut pos = 0;
    assert_eq!(Data::parse(&buf, &mut pos, Type::SOA), Err(Error::Incomplete(Field::SoaRefresh)));
}
