use vstd::prelude::*;
use crate::error::Error;

verus! {

/// The blockchain a message belongs to.
#[derive(Clone, Copy, Debug, PartialEq, Eq, Structural)]
pub enum Chain {
    Main,
    Test,
}

impl Chain {
    /// The byte that stands for this chain on the wire.
    pub open spec fn spec_byte(self) -> u8 {
        match self {
            Chain::Main => 1,
            Chain::Test => 2,
        }
    }

    /// The chain that a leading byte stands for.
    pub open spec fn spec_from_byte(b: u8) -> Result<Chain, Error> {
        if b == 1 {
            Ok(Chain::Main)
        } else if b == 2 {
            Ok(Chain::Test)
        } else {
            Err(Error::UnknownChain)
        }
    }

    /// Reads a chain from the first byte; the rest is ignored.
    pub fn from_bytes(bytes: &[u8]) -> (r: Result<Chain, Error>)
        requires
            bytes@.len() > 0,
        ensures
            r == Chain::spec_from_byte(bytes@[0]),
    {
        match bytes[0] {
            1u8 => Ok(Chain::Main),
            2u8 => Ok(Chain::Test),
            _ => Err(Error::UnknownChain),
        }
    }

    /// The one-byte encoding of the chain.
    pub fn to_bytes(&self) -> (r: Vec<u8>)
        ensures
            r@ == seq![self.spec_byte()],
    {
        match self {
            Chain::Main => vec![1u8],
            Chain::Test => vec![2u8],
        }
    }
}

/// Reading back the encoding of a chain gives the chain.
pub proof fn lemma_chain_roundtrip(c: Chain)
    ensures
        Chain::spec_from_byte(c.spec_byte()) == Ok::<Chain, Error>(c),
{
}

/// A byte that reads as a chain is that chain's encoding: the code is one to one.
pub proof fn lemma_chain_byte_unique(b: u8)
    ensures
        Chain::spec_from_byte(b) matches Ok(c) ==> c.spec_byte() == b,
{
}

} // verus!
