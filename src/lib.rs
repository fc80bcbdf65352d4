//! A codec for DNS messages: header, questions, resource records and
//! compressed domain names.
use vstd::prelude::*;

pub mod client;
pub mod domain;
pub mod error;
pub mod message;
pub mod name;
pub mod rr;
pub mod wire;

pub use client::ClientRequest;
pub use domain::{DomainName, DomainNameError, Qname, QnameError};
pub use error::{Error, Field};
pub use message::{
    Header, Message, Opcode, Question, QuestionClass, QuestionType, ResponseCode, AA, QR,
};
pub use name::encode_name;
pub use rr::{CharacterString, Class, Data, Ipv4Addr, ResourceRecord, Type};

verus! {

} // verus!
