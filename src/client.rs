//! Requests that clients send to the resolver.
use vstd::prelude::*;
use vstd::utf8::*;

use crate::error::{Error, Field};
use crate::wire::{put_range, text_of};

verus! {

/// A client's request: its identifier and the name to resolve.
#[derive(Debug, Clone, PartialEq, Eq)]
pub struct ClientRequest {
    id: u8,
    name: String,
}

/// The request held in a payload: its first byte is the identifier, the rest
/// is the name as UTF-8.
pub open spec fn request_of(payload: Seq<u8>) -> Result<(u8, Seq<char>), Error> {
    if payload.len() == 0 {
        Err(Error::Incomplete(Field::Id))
    } else if !valid_utf8(payload.drop_first()) {
        Err(Error::StringNotUtf8)
    } else {
        Ok((payload[0], decode_utf8(payload.drop_first())))
    }
}

impl ClientRequest {
    /// The identifier.
    pub closed spec fn spec_id(&self) -> u8 {
        self.id
    }

    /// The name to resolve.
    pub closed spec fn spec_name(&self) -> Seq<char> {
        self.name@
    }

    /// A request with the given identifier and name.
    pub fn new(id: u8, name: String) -> (r: Self)
        ensures
            r.spec_id() == id,
            r.spec_name() == name@,
    {
        Self { id, name }
    }

    /// The identifier.
    pub fn id(&self) -> (r: u8)
        ensures
            r == self.spec_id(),
    {
        self.id
    }

    /// The name to resolve.
    pub fn name(&self) -> (r: &str)
        ensures
            r@ == self.spec_name(),
    {
        self.name.as_str()
    }

    /// Reads a request from the payload of one frame.
    pub fn decode(payload: &[u8]) -> (r: Result<ClientRequest, Error>)
        ensures
            r is Ok <==> request_of(payload@) is Ok,
            r is Ok ==> r->Ok_0.spec_id() == request_of(payload@)->Ok_0.0,
            r is Ok ==> r->Ok_0.spec_name() == request_of(payload@)->Ok_0.1,
            r is Err ==> r->Err_0 == request_of(payload@)->Err_0,
    {
        if payload.len() == 0 {
            return Err(Error::Incomplete(Field::Id));
        }
        let mut rest: Vec<u8> = Vec::new();
        put_range(&mut rest, payload, 1, payload.len());
        assert(rest@ =~= payload@.drop_first());
        match text_of(rest.as_slice()) {
            Some(s) => {
                proof {
                    encode_utf8_decode_utf8(s@);
                }
                Ok(ClientRequest::new(payload[0], s.to_owned()))
            },
            None => Err(Error::StringNotUtf8),
        }
    }
}

} // verus!
