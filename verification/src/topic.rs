use vstd::prelude::*;
use crate::error::Error;

verus! {

/// What a message is about.
#[derive(Clone, Copy, Debug, PartialEq, Eq, Structural)]
pub enum Topic {
    Block,
    BlockRequest,
    CancelTransaction,
    JoinRequest,
    JoinResponse,
    PingRequest,
    PingResponse,
    Transaction,
}

impl Topic {
    /// The byte that stands for this topic on the wire.
    pub open spec fn spec_byte(self) -> u8 {
        match self {
            Topic::Block => 1,
            Topic::BlockRequest => 2,
            Topic::CancelTransaction => 3,
            Topic::JoinRequest => 4,
            Topic::JoinResponse => 5,
            Topic::PingRequest => 6,
            Topic::PingResponse => 7,
            Topic::Transaction => 8,
        }
    }

    /// The topic that a leading byte stands for.
    pub open spec fn spec_from_byte(b: u8) -> Result<Topic, Error> {
        if b == 1 {
            Ok(Topic::Block)
        } else if b == 2 {
            Ok(Topic::BlockRequest)
        } else if b == 3 {
            Ok(Topic::CancelTransaction)
        } else if b == 4 {
            Ok(Topic::JoinRequest)
        } else if b == 5 {
            Ok(Topic::JoinResponse)
        } else if b == 6 {
            Ok(Topic::PingRequest)
        } else if b == 7 {
            Ok(Topic::PingResponse)
        } else if b == 8 {
            Ok(Topic::Transaction)
        } else {
            Err(Error::UnknownTopic)
        }
    }

    /// Reads a topic from the first byte; the rest is ignored.
    pub fn from_bytes(bytes: &[u8]) -> (r: Result<Topic, Error>)
        requires
            bytes@.len() > 0,
        ensures
            r == Topic::spec_from_byte(bytes@[0]),
    {
        match bytes[0] {
            1u8 => Ok(Topic::Block),
            2u8 => Ok(Topic::BlockRequest),
            3u8 => Ok(Topic::CancelTransaction),
            4u8 => Ok(Topic::JoinRequest),
            5u8 => Ok(Topic::JoinResponse),
            6u8 => Ok(Topic::PingRequest),
            7u8 => Ok(Topic::PingResponse),
            8u8 => Ok(Topic::Transaction),
            _ => Err(Error::UnknownTopic),
        }
    }

    /// The one-byte encoding of the topic.
    pub fn to_bytes(&self) -> (r: Vec<u8>)
        ensures
            r@ == seq![self.spec_byte()],
    {
        match self {
            Topic::Block => vec![1u8],
            Topic::BlockRequest => vec![2u8],
            Topic::CancelTransaction => vec![3u8],
            Topic::JoinRequest => vec![4u8],
            Topic::JoinResponse => vec![5u8],
            Topic::PingRequest => vec![6u8],
            Topic::PingResponse => vec![7u8],
            Topic::Transaction => vec![8u8],
        }
    }
}

/// Reading back the encoding of a topic gives the topic.
pub proof fn lemma_topic_roundtrip(x: Topic)
    ensures
        Topic::spec_from_byte(x.spec_byte()) == Ok::<Topic, Error>(x),
{
}

/// A byte that reads as a topic is that topic's encoding: the code is one to one.
pub proof fn lemma_topic_byte_unique(b: u8)
    ensures
        Topic::spec_from_byte(b) matches Ok(x) ==> x.spec_byte() == b,
{
}

} // verus!
