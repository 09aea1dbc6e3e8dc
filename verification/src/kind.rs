use vstd::prelude::*;
use crate::error::Error;

verus! {

/// What an envelope carries.
#[derive(Clone, Copy, Debug, PartialEq, Eq, Structural)]
pub enum Kind {
    JoinRequest,
    JoinResponse,
    PingRequest,
    PingResponse,
    Encrypted,
}

impl Kind {
    /// The byte that stands for this kind on the wire.
    pub open spec fn spec_byte(self) -> u8 {
        match self {
            Kind::JoinRequest => 1,
            Kind::JoinResponse => 2,
            Kind::PingRequest => 3,
            Kind::PingResponse => 4,
            Kind::Encrypted => 5,
        }
    }

    /// The kind that a leading byte stands for.
    pub open spec fn spec_from_byte(b: u8) -> Result<Kind, Error> {
        if b == 1 {
            Ok(Kind::JoinRequest)
        } else if b == 2 {
            Ok(Kind::JoinResponse)
        } else if b == 3 {
            Ok(Kind::PingRequest)
        } else if b == 4 {
            Ok(Kind::PingResponse)
        } else if b == 5 {
            Ok(Kind::Encrypted)
        } else {
            Err(Error::UnknownKind)
        }
    }

    /// Reads a kind from the first byte; the rest is ignored.
    pub fn from_bytes(bytes: &[u8]) -> (r: Result<Kind, Error>)
        requires
            bytes@.len() > 0,
        ensures
            r == Kind::spec_from_byte(bytes@[0]),
    {
        match bytes[0] {
            1u8 => Ok(Kind::JoinRequest),
            2u8 => Ok(Kind::JoinResponse),
            3u8 => Ok(Kind::PingRequest),
            4u8 => Ok(Kind::PingResponse),
            5u8 => Ok(Kind::Encrypted),
            _ => Err(Error::UnknownKind),
        }
    }

    /// The one-byte encoding of the kind.
    pub fn to_bytes(&self) -> (r: Vec<u8>)
        ensures
            r@ == seq![self.spec_byte()],
    {
        match self {
            Kind::JoinRequest => vec![1u8],
            Kind::JoinResponse => vec![2u8],
            Kind::PingRequest => vec![3u8],
            Kind::PingResponse => vec![4u8],
            Kind::Encrypted => vec![5u8],
        }
    }
}

/// Reading back the encoding of a kind gives the kind.
pub proof fn lemma_kind_roundtrip(x: Kind)
    ensures
        Kind::spec_from_byte(x.spec_byte()) == Ok::<Kind, Error>(x),
{
}

/// A byte that reads as a kind is that kind's encoding: the code is one to one.
pub proof fn lemma_kind_byte_unique(b: u8)
    ensures
        Kind::spec_from_byte(b) matches Ok(x) ==> x.spec_byte() == b,
{
}

} // verus!
