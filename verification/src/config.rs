use vstd::prelude::*;
use crate::codec::{serialize_configuration, deserialize_configuration};

verus! {

/// The size of the server's display block, in 8x8 displays.
#[derive(Debug, Clone, Copy, PartialEq, Eq, Structural)]
pub struct MatrixConfiguration {
    pub width: u8,
    pub height: u8,
}

/// The bytes a configuration is sent as: the width, then the height.
pub open spec fn configuration_bytes(config: MatrixConfiguration) -> Seq<u8> {
    seq![config.width, config.height]
}

/// The configuration that `bytes` are read as: the first two bytes, when
/// there are two; bytes after them are ignored.
pub open spec fn configuration_from(bytes: Seq<u8>) -> Option<MatrixConfiguration> {
    if bytes.len() >= 2 {
        Some(MatrixConfiguration { width: bytes[0], height: bytes[1] })
    } else {
        None
    }
}

impl MatrixConfiguration {
    pub fn to_bytes(&self) -> (result: Option<Vec<u8>>)
        ensures
            result is Some,
            result->0@ == configuration_bytes(*self),
    {
        serialize_configuration(self.width, self.height)
    }

    pub fn from_bytes(bytes: &[u8]) -> (result: Option<Self>)
        ensures
            result == configuration_from(bytes@),
    {
        match deserialize_configuration(bytes) {
            Some((width, height)) => Some(MatrixConfiguration { width, height }),
            None => None,
        }
    }
}

/// Reading the bytes of a configuration, followed by anything, gives that
/// configuration back.
pub proof fn lemma_configuration_roundtrip(config: MatrixConfiguration, rest: Seq<u8>)
    ensures
        configuration_from(configuration_bytes(config) + rest) == Some(config),
{
}

} // verus!
