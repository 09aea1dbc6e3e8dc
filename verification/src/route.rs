use vstd::prelude::*;
use crate::error::Error;

verus! {

/// The overlay a node takes part in: ordinary peers or validators.
#[derive(Clone, Copy, Debug, PartialEq, Eq, Structural)]
pub enum Route {
    Peer,
    Validation,
}

impl Route {
    /// The byte that stands for this route on the wire.
    pub open spec fn spec_byte(self) -> u8 {
        match self {
            Route::Peer => 1,
            Route::Validation => 2,
        }
    }

    /// The route that a leading byte stands for.
    pub open spec fn spec_from_byte(b: u8) -> Result<Route, Error> {
        if b == 1 {
            Ok(Route::Peer)
        } else if b == 2 {
            Ok(Route::Validation)
        } else {
            Err(Error::UnknownRoute)
        }
    }

    /// Reads a route from the first byte; the rest is ignored.
    pub fn from_bytes(bytes: &[u8]) -> (r: Result<Route, Error>)
        requires
            bytes@.len() > 0,
        ensures
            r == Route::spec_from_byte(bytes@[0]),
    {
        match bytes[0] {
            1u8 => Ok(Route::Peer),
            2u8 => Ok(Route::Validation),
            _ => Err(Error::UnknownRoute),
        }
    }

    /// Reads a route from one byte.
    pub fn from_byte(b: u8) -> (r: Result<Route, Error>)
        ensures
            r == Route::spec_from_byte(b),
    {
        match b {
            1u8 => Ok(Route::Peer),
            2u8 => Ok(Route::Validation),
            _ => Err(Error::UnknownRoute),
        }
    }

    /// The one-byte encoding of the route.
    pub fn to_bytes(&self) -> (r: Vec<u8>)
        ensures
            r@ == seq![self.spec_byte()],
    {
        match self {
            Route::Peer => vec![1u8],
            Route::Validation => vec![2u8],
        }
    }
}

/// Reading back the encoding of a route gives the route.
pub proof fn lemma_route_roundtrip(c: Route)
    ensures
        Route::spec_from_byte(c.spec_byte()) == Ok::<Route, Error>(c),
{
}

/// A byte that reads as a route is that route's encoding: the code is one to one.
pub proof fn lemma_route_byte_unique(b: u8)
    ensures
        Route::spec_from_byte(b) matches Ok(c) ==> c.spec_byte() == b,
{
}

} // verus!
